//! Optimization curves: per problem and optimizer, the best-so-far
//! series of every run, and the values of all runs side by side at each
//! step that every run covers.

use vstd::prelude::*;
use crate::keys::{resolve_spec, KeyMap};
use crate::record::{Direction, EvalRecord, EvalState, Record, StudyRecord, ValueDef};
use crate::series::{
    holds_forward_except, is_best_so_far, lemma_observed_holds_forward, observe, observed,
};

verus! {

/// Which span and objective the curves follow, and the key scripts that
/// name a study's problem and optimizer. The scripts are evaluated
/// outside the library, which takes the keys they gave.
#[derive(Debug)]
pub struct CurveOpt {
    pub span_index: usize,
    pub objective_index: usize,
    pub problem_name: String,
    pub optimizer_name: String,
}

/// One run: a study, by its id, and its best-so-far series.
#[derive(Debug)]
pub struct Run {
    pub id: String,
    pub series: Vec<Option<i64>>,
}

/// The runs of one optimizer on one problem.
#[derive(Debug)]
pub struct Study {
    pub problem: String,
    pub optimizer: String,
    pub span_name: String,
    pub objective: ValueDef,
    /// The runs, in the order in which they were first seen.
    pub best_values: Vec<Run>,
    /// For each step that every run covers: the values of the runs at
    /// that step, in the order of `best_values`, or `None` where a run
    /// has no value yet.
    pub aligned: Vec<Option<Vec<i64>>>,
    /// The number of runs.
    pub samples: usize,
}

pub type Studies = Vec<Study>;

/// Why no curves were computed.
#[derive(Debug)]
pub enum CurveError {
    /// The record at this position has no span at the chosen index.
    SpanIndexOutOfRange { record: usize },
    /// The record at this position has no objective at the chosen index.
    ObjectiveIndexOutOfRange { record: usize },
    /// The record at this position ends at a step beyond what a series
    /// can cover.
    StepOutOfRange { record: usize },
}

/// What a `Run` holds.
pub struct RunView {
    pub id: Seq<char>,
    pub series: Seq<Option<i64>>,
}

/// What a `Study` holds.
pub struct StudyView {
    pub problem: Seq<char>,
    pub optimizer: Seq<char>,
    pub span_name: Seq<char>,
    pub objective_name: Seq<char>,
    pub direction: Direction,
    pub runs: Seq<RunView>,
    pub aligned: Seq<Option<Seq<i64>>>,
    pub samples: nat,
}

impl View for Run {
    type V = RunView;

    open spec fn view(&self) -> RunView {
        RunView { id: self.id@, series: self.series@ }
    }
}

impl View for Study {
    type V = StudyView;

    open spec fn view(&self) -> StudyView {
        StudyView {
            problem: self.problem@,
            optimizer: self.optimizer@,
            span_name: self.span_name@,
            objective_name: self.objective.name@,
            direction: self.objective.direction,
            runs: self.best_values@.map_values(|r: Run| r@),
            aligned: columns_view(self.aligned@),
            samples: self.samples as nat,
        }
    }
}

/// What a list of studies holds.
pub open spec fn studies_view(studies: Seq<Study>) -> Seq<StudyView> {
    studies.map_values(|s: Study| s@)
}

/// Where the study of `problem` and `optimizer` stands in `studies`, if
/// it is there.
pub open spec fn study_index(
    studies: Seq<StudyView>,
    problem: Seq<char>,
    optimizer: Seq<char>,
) -> Option<int> {
    if exists|k: int| is_study_index(studies, problem, optimizer, k) {
        Some(choose|k: int| is_study_index(studies, problem, optimizer, k))
    } else {
        None
    }
}

/// `k` is the first place in `studies` that holds the study of
/// `problem` and `optimizer`.
pub open spec fn is_study_index(
    studies: Seq<StudyView>,
    problem: Seq<char>,
    optimizer: Seq<char>,
    k: int,
) -> bool {
    &&& 0 <= k < studies.len()
    &&& studies[k].problem == problem
    &&& studies[k].optimizer == optimizer
    &&& forall|j: int|
        0 <= j < k ==> !((#[trigger] studies[j]).problem == problem && studies[j].optimizer
            == optimizer)
}

/// Where the run `id` stands in `runs`, if it is there.
pub open spec fn run_index(runs: Seq<RunView>, id: Seq<char>) -> Option<int> {
    if exists|r: int| is_run_index(runs, id, r) {
        Some(choose|r: int| is_run_index(runs, id, r))
    } else {
        None
    }
}

/// `r` is the first place in `runs` that holds the run `id`.
pub open spec fn is_run_index(runs: Seq<RunView>, id: Seq<char>, r: int) -> bool {
    &&& 0 <= r < runs.len()
    &&& runs[r].id == id
    &&& forall|j: int| 0 <= j < r ==> (#[trigger] runs[j]).id != id
}

/// Finds the study of `problem` and `optimizer`.
pub fn find_study(studies: &Vec<Study>, problem: &String, optimizer: &String) -> (r: Option<usize>)
    ensures
        match r {
            Some(k) => study_index(studies_view(studies@), problem@, optimizer@) == Some(k as int)
                && k < studies@.len(),
            None => study_index(studies_view(studies@), problem@, optimizer@).is_none(),
        },
{
    let ghost sv = studies_view(studies@);
    let mut k: usize = 0;
    while k < studies.len()
        invariant
            k <= studies@.len(),
            sv == studies_view(studies@),
            forall|j: int|
                0 <= j < k ==> !((#[trigger] sv[j]).problem == problem@ && sv[j].optimizer
                    == optimizer@),
        decreases studies@.len() - k,
    {
        if studies[k].problem == *problem && studies[k].optimizer == *optimizer {
            assert(is_study_index(sv, problem@, optimizer@, k as int));
            return Some(k);
        }
        k = k + 1;
    }
    None
}

/// Finds the run `id`.
pub fn find_run(runs: &Vec<Run>, id: &String) -> (r: Option<usize>)
    ensures
        match r {
            Some(i) => run_index(runs@.map_values(|r: Run| r@), id@) == Some(i as int) && i
                < runs@.len(),
            None => run_index(runs@.map_values(|r: Run| r@), id@).is_none(),
        },
{
    let ghost rv = runs@.map_values(|r: Run| r@);
    let mut i: usize = 0;
    while i < runs.len()
        invariant
            i <= runs@.len(),
            rv == runs@.map_values(|r: Run| r@),
            forall|j: int| 0 <= j < i ==> (#[trigger] rv[j]).id != id@,
        decreases runs@.len() - i,
    {
        if runs[i].id == *id {
            assert(is_run_index(rv, id@, i as int));
            return Some(i);
        }
        i = i + 1;
    }
    None
}

/// A run that has seen no trial yet: nothing at step 0.
pub open spec fn fresh_run(id: Seq<char>) -> RunView {
    RunView { id, series: seq![None] }
}

/// The runs after the run `id` was registered: it starts afresh where it
/// was there already, and joins at the end where it was not.
pub open spec fn with_run(runs: Seq<RunView>, id: Seq<char>) -> Seq<RunView> {
    match run_index(runs, id) {
        Some(r) => runs.update(r, fresh_run(id)),
        None => runs.push(fresh_run(id)),
    }
}

impl StudyView {
    /// This study with other runs.
    pub open spec fn with_runs(self, runs: Seq<RunView>) -> StudyView {
        StudyView { runs, ..self }
    }

    /// Every series is a best-so-far series, there is a run, and no run
    /// is there twice.
    pub open spec fn well_formed(self) -> bool {
        &&& self.runs.len() > 0
        &&& forall|r: int|
            0 <= r < self.runs.len() ==> is_best_so_far(
                (#[trigger] self.runs[r]).series,
                self.direction,
            )
        &&& distinct_runs(self.runs)
    }
}

/// No two runs have the same id.
pub open spec fn distinct_runs(runs: Seq<RunView>) -> bool {
    forall|a: int, b: int|
        0 <= a < b < runs.len() ==> (#[trigger] runs[a]).id != (#[trigger] runs[b]).id
}

/// No two studies have the same problem and the same optimizer.
pub open spec fn distinct_studies(studies: Seq<StudyView>) -> bool {
    forall|a: int, b: int|
        0 <= a < b < studies.len() ==> !((#[trigger] studies[a]).problem == (
        #[trigger] studies[b]).problem && studies[a].optimizer == studies[b].optimizer)
}

/// Every study is well formed, and no study is there twice.
pub open spec fn well_formed(studies: Seq<StudyView>) -> bool {
    &&& forall|k: int| 0 <= k < studies.len() ==> (#[trigger] studies[k]).well_formed()
    &&& distinct_studies(studies)
}

/// A series that holds nothing at step 0.
pub fn fresh_series() -> (r: Vec<Option<i64>>)
    ensures
        r@ == seq![None::<i64>],
{
    let mut series: Vec<Option<i64>> = Vec::new();
    series.push(None);
    assert(series@ =~= seq![None::<i64>]);
    series
}

impl CurveOpt {
    /// The studies after a study record was seen whose problem and
    /// optimizer are given. A study that is new to its problem and
    /// optimizer takes the span's name and the objective from this
    /// record; later records of the same problem and optimizer only add
    /// their run.
    pub open spec fn study_observed(
        &self,
        studies: Seq<StudyView>,
        study: StudyRecord,
        record: usize,
        problem: Seq<char>,
        optimizer: Seq<char>,
    ) -> Result<Seq<StudyView>, CurveError> {
        match study_index(studies, problem, optimizer) {
            Some(k) => Ok(
                studies.update(k, studies[k].with_runs(with_run(studies[k].runs, study.id@))),
            ),
            None => if self.span_index >= study.spans@.len() {
                Err(CurveError::SpanIndexOutOfRange { record })
            } else if self.objective_index >= study.values@.len() {
                Err(CurveError::ObjectiveIndexOutOfRange { record })
            } else {
                Ok(
                    studies.push(
                        StudyView {
                            problem,
                            optimizer,
                            span_name: study.spans@[self.span_index as int].name@,
                            objective_name: study.values@[self.objective_index as int].name@,
                            direction: study.values@[self.objective_index as int].direction,
                            runs: seq![fresh_run(study.id@)],
                            aligned: Seq::empty(),
                            samples: 0,
                        },
                    ),
                )
            },
        }
    }

    /// Registers the run of a study record under its problem and
    /// optimizer.
    pub fn observe_study(
        &self,
        studies: &mut Vec<Study>,
        study: &StudyRecord,
        record: usize,
        problem: String,
        optimizer: String,
    ) -> (r: Result<(), CurveError>)
        requires
            well_formed(studies_view(old(studies)@)),
        ensures
            match r {
                Ok(()) => self.study_observed(
                    studies_view(old(studies)@),
                    *study,
                    record,
                    problem@,
                    optimizer@,
                ) == Ok::<Seq<StudyView>, CurveError>(studies_view(final(studies)@)),
                Err(e) => self.study_observed(
                    studies_view(old(studies)@),
                    *study,
                    record,
                    problem@,
                    optimizer@,
                ) == Err::<Seq<StudyView>, CurveError>(e) && final(studies)@ == old(studies)@,
            },
            well_formed(studies_view(final(studies)@)),
    {
        let ghost before = studies_view(studies@);
        match find_study(studies, &problem, &optimizer) {
            Some(k) => {
                let ghost runs_before = before[k as int].runs;
                assert(runs_before == studies@[k as int].best_values@.map_values(|r: Run| r@));
                match find_run(&studies[k].best_values, &study.id) {
                    Some(i) => {
                        studies[k].best_values[i].series = fresh_series();
                        assert(studies@[k as int].best_values@[i as int]@ == fresh_run(study.id@));
                        assert(studies@[k as int].best_values@.map_values(|r: Run| r@)
                            =~= with_run(runs_before, study.id@));
                    },
                    None => {
                        studies[k].best_values.push(
                            Run { id: study.id.clone(), series: fresh_series() },
                        );
                        assert(studies@[k as int].best_values@.map_values(|r: Run| r@)
                            =~= with_run(runs_before, study.id@));
                    },
                }
                assert(studies@[k as int]@ == before[k as int].with_runs(
                    with_run(runs_before, study.id@),
                ));
                assert(studies_view(studies@) =~= before.update(
                    k as int,
                    before[k as int].with_runs(with_run(runs_before, study.id@)),
                ));
                assert(well_formed(studies_view(studies@))) by {
                    lemma_with_run_well_formed(before[k as int], study.id@);
                    let after = studies_view(studies@);
                    assert forall|a: int, b: int| 0 <= a < b < after.len() implies !((
                    #[trigger] after[a]).problem == (#[trigger] after[b]).problem
                        && after[a].optimizer == after[b].optimizer) by {
                        assert(after[a].problem == before[a].problem && after[a].optimizer
                            == before[a].optimizer);
                        assert(after[b].problem == before[b].problem && after[b].optimizer
                            == before[b].optimizer);
                    }
                }
                Ok(())
            },
            None => {
                if self.span_index >= study.spans.len() {
                    return Err(CurveError::SpanIndexOutOfRange { record });
                }
                if self.objective_index >= study.values.len() {
                    return Err(CurveError::ObjectiveIndexOutOfRange { record });
                }
                let mut runs: Vec<Run> = Vec::new();
                runs.push(Run { id: study.id.clone(), series: fresh_series() });
                let created = Study {
                    problem,
                    optimizer,
                    span_name: study.spans[self.span_index].name.clone(),
                    objective: study.values[self.objective_index].duplicate(),
                    best_values: runs,
                    aligned: Vec::new(),
                    samples: 0,
                };
                assert(created@.runs =~= seq![fresh_run(study.id@)]);
                assert(created@.aligned =~= Seq::empty());
                assert(created@.well_formed());
                studies.push(created);
                assert(studies_view(studies@) =~= before.push(created@));
                assert(well_formed(studies_view(studies@))) by {
                    let after = studies_view(studies@);
                    assert forall|a: int, b: int| 0 <= a < b < after.len() implies !((
                    #[trigger] after[a]).problem == (#[trigger] after[b]).problem
                        && after[a].optimizer == after[b].optimizer) by {
                        assert(after[a] == before[a]);
                        if b == before.len() {
                            if before[a].problem == problem@ && before[a].optimizer == optimizer@ {
                                lemma_study_found(before, problem@, optimizer@, a);
                            }
                        } else {
                            assert(after[b] == before[b]);
                        }
                    }
                }
                Ok(())
            },
        }
    }
}

impl RunView {
    /// This run with another series.
    pub open spec fn with_series(self, series: Seq<Option<i64>>) -> RunView {
        RunView { series, ..self }
    }
}

impl CurveOpt {
    /// The studies after a trial was seen, given the keys of the
    /// studies' problems and optimizers. Only a complete trial of a run
    /// that was registered counts; its value at the chosen objective is
    /// observed at the step at which its chosen span ends.
    pub open spec fn eval_observed(
        &self,
        studies: Seq<StudyView>,
        eval: EvalRecord,
        record: usize,
        problems: Map<Seq<char>, Seq<char>>,
        optimizers: Map<Seq<char>, Seq<char>>,
    ) -> Result<Seq<StudyView>, CurveError> {
        if eval.state != EvalState::Complete {
            Ok(studies)
        } else {
            match study_index(
                studies,
                resolve_spec(problems, eval.study@),
                resolve_spec(optimizers, eval.study@),
            ) {
                None => Ok(studies),
                Some(k) => match run_index(studies[k].runs, eval.study@) {
                    None => Ok(studies),
                    Some(r) => if self.span_index >= eval.spans@.len() {
                        Err(CurveError::SpanIndexOutOfRange { record })
                    } else if self.objective_index >= eval.values@.len() {
                        Err(CurveError::ObjectiveIndexOutOfRange { record })
                    } else if eval.spans@[self.span_index as int] == usize::MAX {
                        Err(CurveError::StepOutOfRange { record })
                    } else {
                        Ok(
                            studies.update(
                                k,
                                studies[k].with_runs(
                                    studies[k].runs.update(
                                        r,
                                        studies[k].runs[r].with_series(
                                            observed(
                                                studies[k].runs[r].series,
                                                eval.spans@[self.span_index as int] as int,
                                                eval.values@[self.objective_index as int],
                                                studies[k].direction,
                                            ),
                                        ),
                                    ),
                                ),
                            ),
                        )
                    },
                },
            }
        }
    }

    /// Takes a trial into the series of its run.
    pub fn observe_eval(
        &self,
        studies: &mut Vec<Study>,
        eval: &EvalRecord,
        record: usize,
        problems: &KeyMap,
        optimizers: &KeyMap,
    ) -> (r: Result<(), CurveError>)
        requires
            well_formed(studies_view(old(studies)@)),
        ensures
            match r {
                Ok(()) => self.eval_observed(
                    studies_view(old(studies)@),
                    *eval,
                    record,
                    problems@,
                    optimizers@,
                ) == Ok::<Seq<StudyView>, CurveError>(studies_view(final(studies)@)),
                Err(e) => self.eval_observed(
                    studies_view(old(studies)@),
                    *eval,
                    record,
                    problems@,
                    optimizers@,
                ) == Err::<Seq<StudyView>, CurveError>(e) && final(studies)@ == old(studies)@,
            },
            well_formed(studies_view(final(studies)@)),
    {
        let ghost before = studies_view(studies@);
        if !eval.state.is_complete() {
            return Ok(());
        }
        let problem = problems.resolve(&eval.study);
        let optimizer = optimizers.resolve(&eval.study);
        let k = match find_study(studies, &problem, &optimizer) {
            Some(k) => k,
            None => {
                return Ok(());
            },
        };
        let ghost runs_before = before[k as int].runs;
        assert(runs_before == studies@[k as int].best_values@.map_values(|r: Run| r@));
        let i = match find_run(&studies[k].best_values, &eval.study) {
            Some(i) => i,
            None => {
                return Ok(());
            },
        };
        if self.span_index >= eval.spans.len() {
            return Err(CurveError::SpanIndexOutOfRange { record });
        }
        if self.objective_index >= eval.values.len() {
            return Err(CurveError::ObjectiveIndexOutOfRange { record });
        }
        let step = eval.spans[self.span_index];
        let value = eval.values[self.objective_index];
        if step == usize::MAX {
            return Err(CurveError::StepOutOfRange { record });
        }
        let direction = studies[k].objective.direction;
        assert(before[k as int].well_formed());
        assert(is_best_so_far(runs_before[i as int].series, direction));
        observe(&mut studies[k].best_values[i].series, step, value, direction);
        proof {
            let series = observed(runs_before[i as int].series, step as int, value, direction);
            let runs = runs_before.update(i as int, runs_before[i as int].with_series(series));
            assert(studies@[k as int].best_values@[i as int]@ == runs_before[i as int].with_series(
                series,
            ));
            assert(studies@[k as int].best_values@.map_values(|r: Run| r@) =~= runs);
            assert(studies@[k as int]@ == before[k as int].with_runs(runs));
            assert(studies_view(studies@) =~= before.update(
                k as int,
                before[k as int].with_runs(runs),
            ));
            assert forall|r: int| 0 <= r < runs.len() implies is_best_so_far(
                (#[trigger] runs[r]).series,
                direction,
            ) by {
                if r != i {
                    assert(runs[r] == runs_before[r]);
                }
            }
        }
        Ok(())
    }
}

/// The number of steps that every run covers: the least length among the
/// series, and 0 where there is no run.
pub open spec fn common_len(runs: Seq<RunView>) -> nat
    decreases runs.len(),
{
    if runs.len() == 0 {
        0
    } else if runs.len() == 1 {
        runs[0].series.len()
    } else if runs.last().series.len() < common_len(runs.drop_last()) {
        runs.last().series.len()
    } else {
        common_len(runs.drop_last())
    }
}

/// Every run has a value at step `i`.
pub open spec fn all_present(runs: Seq<RunView>, i: int) -> bool {
    forall|r: int|
        0 <= r < runs.len() ==> 0 <= i < (#[trigger] runs[r]).series.len() && runs[r].series[i]
            is Some
}

/// The values of all runs at step `i`, run by run, where every run has
/// one; `None` where a run has none.
pub open spec fn aligned_at(runs: Seq<RunView>, i: int) -> Option<Seq<i64>> {
    if all_present(runs, i) {
        Some(Seq::new(runs.len(), |r: int| runs[r].series[i]->0))
    } else {
        None
    }
}

/// The study with its runs counted and laid side by side.
pub open spec fn finalized(s: StudyView) -> StudyView {
    StudyView {
        samples: s.runs.len(),
        aligned: Seq::new(common_len(s.runs), |i: int| aligned_at(s.runs, i)),
        ..s
    }
}

/// No series is shorter than the common length, and where there is a run
/// some series is exactly that long.
pub proof fn lemma_common_len(runs: Seq<RunView>)
    ensures
        forall|r: int|
            0 <= r < runs.len() ==> common_len(runs) <= (#[trigger] runs[r]).series.len(),
        runs.len() > 0 ==> exists|r: int|
            0 <= r < runs.len() && (#[trigger] runs[r]).series.len() == common_len(runs),
    decreases runs.len(),
{
    if runs.len() > 1 {
        let front = runs.drop_last();
        lemma_common_len(front);
        assert forall|r: int| 0 <= r < runs.len() implies common_len(runs) <= (
        #[trigger] runs[r]).series.len() by {
            if r < front.len() {
                assert(front[r] == runs[r]);
            }
        }
        let w = choose|r: int|
            0 <= r < front.len() && (#[trigger] front[r]).series.len() == common_len(front);
        assert(front[w] == runs[w]);
        if runs.last().series.len() < common_len(front) {
            assert(runs[runs.len() - 1].series.len() == common_len(runs));
        } else {
            assert(runs[w].series.len() == common_len(runs));
        }
    } else if runs.len() == 1 {
        assert(runs[0].series.len() == common_len(runs));
    }
}

/// Two runs side by side: at a step that both cover, their two values
/// where both have one, and nothing where either has none.
pub proof fn lemma_aligned_pair(a: RunView, b: RunView, i: int)
    requires
        0 <= i < a.series.len(),
        i < b.series.len(),
    ensures
        common_len(seq![a, b]) == if b.series.len() < a.series.len() {
            b.series.len()
        } else {
            a.series.len()
        },
        aligned_at(seq![a, b], i) == if a.series[i] is Some && b.series[i] is Some {
            Some(seq![a.series[i]->0, b.series[i]->0])
        } else {
            None
        },
{
    let runs = seq![a, b];
    assert(runs.drop_last() =~= seq![a]);
    assert(common_len(seq![a]) == a.series.len());
    assert(runs[0] == a && runs[1] == b);
    if a.series[i] is Some && b.series[i] is Some {
        assert(all_present(runs, i));
        assert(aligned_at(runs, i)->0 =~= seq![a.series[i]->0, b.series[i]->0]);
    } else {
        assert(!all_present(runs, i));
    }
}

/// The number of steps that every run covers.
pub fn common_length(runs: &Vec<Run>) -> (n: usize)
    ensures
        n == common_len(runs@.map_values(|r: Run| r@)),
{
    let ghost rv = runs@.map_values(|r: Run| r@);
    if runs.len() == 0 {
        return 0;
    }
    let mut n: usize = runs[0].series.len();
    let mut i: usize = 1;
    assert(rv.take(1) =~= seq![rv[0]]);
    while i < runs.len()
        invariant
            1 <= i <= runs@.len(),
            rv == runs@.map_values(|r: Run| r@),
            n == common_len(rv.take(i as int)),
        decreases runs@.len() - i,
    {
        assert(rv.take(i + 1).drop_last() =~= rv.take(i as int));
        assert(rv.take(i + 1).last() == rv[i as int]);
        if runs[i].series.len() < n {
            n = runs[i].series.len();
        }
        i = i + 1;
    }
    assert(rv.take(i as int) =~= rv);
    n
}

/// The values of all runs at step `i`, where every run has one.
pub fn column_at(runs: &Vec<Run>, i: usize) -> (c: Option<Vec<i64>>)
    requires
        forall|r: int| 0 <= r < runs@.len() ==> i < (#[trigger] runs@[r]).series@.len(),
    ensures
        match c {
            Some(v) => aligned_at(runs@.map_values(|r: Run| r@), i as int) == Some(v@),
            None => aligned_at(runs@.map_values(|r: Run| r@), i as int).is_none(),
        },
{
    let ghost rv = runs@.map_values(|r: Run| r@);
    let mut values: Vec<i64> = Vec::new();
    let mut r: usize = 0;
    while r < runs.len()
        invariant
            r <= runs@.len(),
            rv == runs@.map_values(|r: Run| r@),
            forall|q: int| 0 <= q < runs@.len() ==> i < (#[trigger] runs@[q]).series@.len(),
            values@.len() == r,
            forall|q: int| 0 <= q < r ==> (#[trigger] rv[q]).series[i as int] == Some(values@[q]),
        decreases runs@.len() - r,
    {
        assert(rv[r as int] == runs@[r as int]@);
        match runs[r].series[i] {
            Some(v) => {
                values.push(v);
            },
            None => {
                assert(!all_present(rv, i as int));
                return None;
            },
        }
        r = r + 1;
    }
    proof {
        assert forall|q: int| 0 <= q < rv.len() implies 0 <= i < (#[trigger] rv[q]).series.len()
            && rv[q].series[i as int] is Some by {
            assert(rv[q] == runs@[q]@);
        }
        assert(aligned_at(rv, i as int)->0 =~= values@);
    }
    Some(values)
}

/// What a list of columns holds.
pub open spec fn columns_view(columns: Seq<Option<Vec<i64>>>) -> Seq<Option<Seq<i64>>> {
    columns.map_values(
        |c: Option<Vec<i64>>|
            match c {
                Some(v) => Some(v@),
                None => None,
            },
    )
}

/// Counts the runs of a study and lays their series side by side, over
/// the steps that every run covers.
pub fn finalize_study(study: &mut Study)
    ensures
        final(study)@ == finalized(old(study)@),
{
    let ghost rv = study@.runs;
    let size = common_length(&study.best_values);
    proof {
        lemma_common_len(rv);
    }
    let mut aligned: Vec<Option<Vec<i64>>> = Vec::new();
    let mut i: usize = 0;
    while i < size
        invariant
            i <= size,
            size == common_len(rv),
            rv == study.best_values@.map_values(|r: Run| r@),
            forall|r: int| 0 <= r < rv.len() ==> size <= (#[trigger] rv[r]).series.len(),
            aligned@.len() == i,
            forall|j: int|
                0 <= j < i ==> (#[trigger] columns_view(aligned@)[j]) == aligned_at(rv, j),
        decreases size - i,
    {
        assert forall|r: int| 0 <= r < study.best_values@.len() implies i < (
        #[trigger] study.best_values@[r]).series@.len() by {
            assert(rv[r] == study.best_values@[r]@);
        }
        let c = column_at(&study.best_values, i);
        let ghost prev = aligned@;
        aligned.push(c);
        assert forall|j: int| 0 <= j < i + 1 implies (#[trigger] columns_view(aligned@)[j])
            == aligned_at(rv, j) by {
            if j < i {
                assert(columns_view(aligned@)[j] == columns_view(prev)[j]);
            }
        }
        i = i + 1;
    }
    let ghost before = study@;
    study.samples = study.best_values.len();
    study.aligned = aligned;
    assert(study@.aligned =~= finalized(before).aligned);
}

/// Finalizes every study.
pub fn finalize(studies: &mut Vec<Study>)
    ensures
        studies_view(final(studies)@) == studies_view(old(studies)@).map_values(
            |s: StudyView| finalized(s),
        ),
{
    let ghost before = studies_view(studies@);
    let mut k: usize = 0;
    while k < studies.len()
        invariant
            k <= studies@.len(),
            studies@.len() == before.len(),
            forall|j: int| 0 <= j < k ==> (#[trigger] studies@[j])@ == finalized(before[j]),
            forall|j: int| k <= j < studies@.len() ==> (#[trigger] studies@[j])@ == before[j],
        decreases studies@.len() - k,
    {
        finalize_study(&mut studies[k]);
        k = k + 1;
    }
    assert(studies_view(studies@) =~= before.map_values(|s: StudyView| finalized(s)));
}

impl CurveOpt {
    /// The studies after one more record was seen. A study record is
    /// filed under the keys of its own id.
    pub open spec fn record_observed(
        &self,
        studies: Seq<StudyView>,
        rec: Record,
        record: usize,
        problems: Map<Seq<char>, Seq<char>>,
        optimizers: Map<Seq<char>, Seq<char>>,
    ) -> Result<Seq<StudyView>, CurveError> {
        match rec {
            Record::Study(study) => self.study_observed(
                studies,
                study,
                record,
                resolve_spec(problems, study.id@),
                resolve_spec(optimizers, study.id@),
            ),
            Record::Eval(eval) => self.eval_observed(studies, eval, record, problems, optimizers),
        }
    }

    /// The studies after the first `n` records were seen, in order, or
    /// the first error on the way.
    pub open spec fn accumulated(
        &self,
        records: Seq<Record>,
        n: int,
        problems: Map<Seq<char>, Seq<char>>,
        optimizers: Map<Seq<char>, Seq<char>>,
    ) -> Result<Seq<StudyView>, CurveError>
        decreases n,
    {
        if n <= 0 {
            Ok(Seq::empty())
        } else {
            match self.accumulated(records, n - 1, problems, optimizers) {
                Err(e) => Err(e),
                Ok(studies) => self.record_observed(
                    studies,
                    records[n - 1],
                    (n - 1) as usize,
                    problems,
                    optimizers,
                ),
            }
        }
    }

    /// The curves of `records`: all records seen in order, then every
    /// study finalized.
    pub open spec fn curves(
        &self,
        records: Seq<Record>,
        problems: Map<Seq<char>, Seq<char>>,
        optimizers: Map<Seq<char>, Seq<char>>,
    ) -> Result<Seq<StudyView>, CurveError> {
        match self.accumulated(records, records.len() as int, problems, optimizers) {
            Err(e) => Err(e),
            Ok(studies) => Ok(studies.map_values(|s: StudyView| finalized(s))),
        }
    }

    /// Builds the curves of `records` in one pass, given the keys of the
    /// studies' problems and optimizers.
    pub fn build_studies(
        &self,
        records: &Vec<Record>,
        problems: &KeyMap,
        optimizers: &KeyMap,
    ) -> (r: Result<Studies, CurveError>)
        ensures
            match r {
                Ok(studies) => self.curves(records@, problems@, optimizers@) == Ok::<
                    Seq<StudyView>,
                    CurveError,
                >(studies_view(studies@)) && well_formed(studies_view(studies@)) && hold_forward(
                    *self,
                    studies_view(studies@),
                    records@,
                    records@.len() as int,
                ),
                Err(e) => self.curves(records@, problems@, optimizers@) == Err::<
                    Seq<StudyView>,
                    CurveError,
                >(e),
            },
    {
        let mut studies: Vec<Study> = Vec::new();
        let mut i: usize = 0;
        assert(studies_view(studies@) =~= Seq::empty());
        while i < records.len()
            invariant
                i <= records@.len(),
                well_formed(studies_view(studies@)),
                self.accumulated(records@, i as int, problems@, optimizers@) == Ok::<
                    Seq<StudyView>,
                    CurveError,
                >(studies_view(studies@)),
            decreases records@.len() - i,
        {
            let step = match &records[i] {
                Record::Study(study) => {
                    let problem = problems.resolve(&study.id);
                    let optimizer = optimizers.resolve(&study.id);
                    self.observe_study(&mut studies, study, i, problem, optimizer)
                },
                Record::Eval(eval) => {
                    self.observe_eval(&mut studies, eval, i, problems, optimizers)
                },
            };
            match step {
                Ok(()) => {},
                Err(e) => {
                    proof {
                        self.lemma_error_stays(records@, i as int + 1, problems@, optimizers@);
                    }
                    return Err(e);
                },
            }
            i = i + 1;
        }
        let ghost seen = studies_view(studies@);
        finalize(&mut studies);
        proof {
            self.lemma_curves_hold_forward(records@, problems@, optimizers@);
            let done = studies_view(studies@);
            assert(done == seen.map_values(|s: StudyView| finalized(s)));
            assert(done.len() == seen.len());
            assert forall|k: int| 0 <= k < done.len() implies (
            #[trigger] done[k]).well_formed() by {
                assert(done[k] == finalized(seen[k]));
                assert(seen[k].well_formed());
            }
        }
        Ok(studies)
    }

    /// Once a record has failed, the records after it change nothing.
    pub proof fn lemma_error_stays(
        &self,
        records: Seq<Record>,
        n: int,
        problems: Map<Seq<char>, Seq<char>>,
        optimizers: Map<Seq<char>, Seq<char>>,
    )
        requires
            0 <= n <= records.len(),
            self.accumulated(records, n, problems, optimizers) is Err,
        ensures
            self.accumulated(records, records.len() as int, problems, optimizers)
                == self.accumulated(records, n, problems, optimizers),
        decreases records.len() - n,
    {
        if n < records.len() {
            assert(self.accumulated(records, n + 1, problems, optimizers) == self.accumulated(
                records,
                n,
                problems,
                optimizers,
            ));
            self.lemma_error_stays(records, n + 1, problems, optimizers);
        }
    }

    /// Computes the optimization curves of `records`, given the keys
    /// that the two key scripts gave for the studies' problems and
    /// optimizers.
    pub fn calculate_optimization_curve(
        &self,
        records: &Vec<Record>,
        problems: &KeyMap,
        optimizers: &KeyMap,
    ) -> (r: Result<Studies, CurveError>)
        ensures
            match r {
                Ok(studies) => self.curves(records@, problems@, optimizers@) == Ok::<
                    Seq<StudyView>,
                    CurveError,
                >(studies_view(studies@)) && well_formed(studies_view(studies@)) && hold_forward(
                    *self,
                    studies_view(studies@),
                    records@,
                    records@.len() as int,
                ),
                Err(e) => self.curves(records@, problems@, optimizers@) == Err::<
                    Seq<StudyView>,
                    CurveError,
                >(e),
            },
    {
        self.build_studies(records, problems, optimizers)
    }
}

/// What a list of ids holds.
pub open spec fn id_views(ids: Seq<String>) -> Seq<Seq<char>> {
    ids.map_values(|s: String| s@)
}

/// Whether `id` is among `ids`.
pub fn holds_id(ids: &Vec<String>, id: &String) -> (r: bool)
    ensures
        r == id_views(ids@).contains(id@),
{
    let ghost views = id_views(ids@);
    let mut i: usize = 0;
    while i < ids.len()
        invariant
            i <= ids@.len(),
            views == id_views(ids@),
            forall|j: int| 0 <= j < i ==> #[trigger] views[j] != id@,
        decreases ids@.len() - i,
    {
        if ids[i] == *id {
            assert(views[i as int] == id@);
            return true;
        }
        i = i + 1;
    }
    false
}

impl CurveOpt {
    /// The trial is passed over for want of a run: it is complete, and
    /// no study record before it has registered the run of its study.
    pub open spec fn passes_over(
        &self,
        studies: Seq<StudyView>,
        eval: EvalRecord,
        problems: Map<Seq<char>, Seq<char>>,
        optimizers: Map<Seq<char>, Seq<char>>,
    ) -> bool {
        eval.state == EvalState::Complete && match study_index(
            studies,
            resolve_spec(problems, eval.study@),
            resolve_spec(optimizers, eval.study@),
        ) {
            None => true,
            Some(k) => run_index(studies[k].runs, eval.study@) is None,
        }
    }

    /// The ids of the studies whose trials were passed over among the
    /// first `n` records, each id once, in the order in which they first
    /// occurred. Records behind a record that failed do not count.
    pub open spec fn skipped(
        &self,
        records: Seq<Record>,
        n: int,
        problems: Map<Seq<char>, Seq<char>>,
        optimizers: Map<Seq<char>, Seq<char>>,
    ) -> Seq<Seq<char>>
        decreases n,
    {
        if n <= 0 {
            Seq::empty()
        } else {
            let before = self.skipped(records, n - 1, problems, optimizers);
            match self.accumulated(records, n - 1, problems, optimizers) {
                Err(_) => before,
                Ok(studies) => match records[n - 1] {
                    Record::Study(_) => before,
                    Record::Eval(eval) => if self.passes_over(studies, eval, problems, optimizers)
                        && !before.contains(eval.study@) {
                        before.push(eval.study@)
                    } else {
                        before
                    },
                },
            }
        }
    }

    /// Behind a record that failed nothing is passed over.
    pub proof fn lemma_skipped_stays(
        &self,
        records: Seq<Record>,
        n: int,
        problems: Map<Seq<char>, Seq<char>>,
        optimizers: Map<Seq<char>, Seq<char>>,
    )
        requires
            0 <= n <= records.len(),
            self.accumulated(records, n, problems, optimizers) is Err,
        ensures
            self.skipped(records, records.len() as int, problems, optimizers) == self.skipped(
                records,
                n,
                problems,
                optimizers,
            ),
        decreases records.len() - n,
    {
        if n < records.len() {
            assert(self.accumulated(records, n + 1, problems, optimizers) == self.accumulated(
                records,
                n,
                problems,
                optimizers,
            ));
            self.lemma_skipped_stays(records, n + 1, problems, optimizers);
        }
    }

    /// Whether the trial is passed over for want of a run.
    pub fn is_passed_over(
        &self,
        studies: &Vec<Study>,
        eval: &EvalRecord,
        problems: &KeyMap,
        optimizers: &KeyMap,
    ) -> (r: bool)
        ensures
            r == self.passes_over(studies_view(studies@), *eval, problems@, optimizers@),
    {
        if !eval.state.is_complete() {
            return false;
        }
        let problem = problems.resolve(&eval.study);
        let optimizer = optimizers.resolve(&eval.study);
        match find_study(studies, &problem, &optimizer) {
            None => true,
            Some(k) => {
                assert(studies_view(studies@)[k as int].runs
                    == studies@[k as int].best_values@.map_values(|r: Run| r@));
                find_run(&studies[k].best_values, &eval.study).is_none()
            },
        }
    }

    /// The ids of the studies whose complete trials `build_studies`
    /// passes over for want of a run, each id once, in the order in
    /// which they first occur.
    pub fn skipped_studies(
        &self,
        records: &Vec<Record>,
        problems: &KeyMap,
        optimizers: &KeyMap,
    ) -> (r: Vec<String>)
        ensures
            id_views(r@) == self.skipped(
                records@,
                records@.len() as int,
                problems@,
                optimizers@,
            ),
    {
        let mut studies: Vec<Study> = Vec::new();
        let mut skipped: Vec<String> = Vec::new();
        let mut i: usize = 0;
        assert(studies_view(studies@) =~= Seq::empty());
        assert(id_views(skipped@) =~= Seq::empty());
        while i < records.len()
            invariant
                i <= records@.len(),
                well_formed(studies_view(studies@)),
                self.accumulated(records@, i as int, problems@, optimizers@) == Ok::<
                    Seq<StudyView>,
                    CurveError,
                >(studies_view(studies@)),
                id_views(skipped@) == self.skipped(records@, i as int, problems@, optimizers@),
            decreases records@.len() - i,
        {
            let step = match &records[i] {
                Record::Study(study) => {
                    let problem = problems.resolve(&study.id);
                    let optimizer = optimizers.resolve(&study.id);
                    self.observe_study(&mut studies, study, i, problem, optimizer)
                },
                Record::Eval(eval) => {
                    if self.is_passed_over(&studies, eval, problems, optimizers) && !holds_id(
                        &skipped,
                        &eval.study,
                    ) {
                        let ghost before = id_views(skipped@);
                        skipped.push(eval.study.clone());
                        assert(id_views(skipped@) =~= before.push(eval.study@));
                    }
                    self.observe_eval(&mut studies, eval, i, problems, optimizers)
                },
            };
            assert(id_views(skipped@) == self.skipped(
                records@,
                i as int + 1,
                problems@,
                optimizers@,
            ));
            match step {
                Ok(()) => {},
                Err(_) => {
                    proof {
                        self.lemma_skipped_stays(records@, i as int + 1, problems@, optimizers@);
                    }
                    return skipped;
                },
            }
            i = i + 1;
        }
        skipped
    }
}

/// Every step of every series repeats the step before it, but for the
/// steps at which a complete trial of the run ended.
pub open spec fn hold_forward(
    opt: CurveOpt,
    studies: Seq<StudyView>,
    records: Seq<Record>,
    n: int,
) -> bool {
    forall|k: int, r: int|
        0 <= k < studies.len() && 0 <= r < studies[k].runs.len() ==> holds_forward_except(
            (#[trigger] studies[k].runs[r]).series,
            opt.trial_steps(records, n, studies[k].runs[r].id),
        )
}

impl CurveOpt {
    /// The record is a complete trial of the study `id` whose chosen span
    /// ends at `step`.
    pub open spec fn ends_at(&self, rec: Record, id: Seq<char>, step: int) -> bool {
        match rec {
            Record::Eval(eval) => eval.study@ == id && eval.state == EvalState::Complete
                && self.span_index < eval.spans@.len() && eval.spans@[self.span_index as int]
                == step,
            Record::Study(_) => false,
        }
    }

    /// The steps at which the complete trials of the study `id` end,
    /// among the first `n` records.
    pub open spec fn trial_steps(&self, records: Seq<Record>, n: int, id: Seq<char>) -> Set<int> {
        Set::new(
            |step: int|
                exists|m: int|
                    0 <= m < n && m < records.len() && self.ends_at(
                        #[trigger] records[m],
                        id,
                        step,
                    ),
        )
    }

    /// Hold-forward in the curves: a step at which no complete trial of
    /// a run ended holds what the step before it holds, in every series,
    /// however many records were taken in.
    pub proof fn lemma_accumulated_holds_forward(
        &self,
        records: Seq<Record>,
        n: int,
        problems: Map<Seq<char>, Seq<char>>,
        optimizers: Map<Seq<char>, Seq<char>>,
    )
        requires
            0 <= n <= records.len(),
            self.accumulated(records, n, problems, optimizers) is Ok,
        ensures
            hold_forward(
                *self,
                self.accumulated(records, n, problems, optimizers)->Ok_0,
                records,
                n,
            ),
        decreases n,
    {
        if n > 0 {
            self.lemma_accumulated_holds_forward(records, n - 1, problems, optimizers);
            let prev = self.accumulated(records, n - 1, problems, optimizers)->Ok_0;
            let cur = self.accumulated(records, n, problems, optimizers)->Ok_0;
            assert forall|k: int, r: int|
                0 <= k < cur.len() && 0 <= r < cur[k].runs.len() implies holds_forward_except(
                (#[trigger] cur[k].runs[r]).series,
                self.trial_steps(records, n, cur[k].runs[r].id),
            ) by {
                let run = cur[k].runs[r];
                let now = self.trial_steps(records, n, run.id);
                let was = self.trial_steps(records, n - 1, run.id);
                assert forall|step: int| was.contains(step) implies now.contains(step) by {
                    let m = choose|m: int|
                        0 <= m < n - 1 && m < records.len() && self.ends_at(
                            #[trigger] records[m],
                            run.id,
                            step,
                        );
                    assert(self.ends_at(records[m], run.id, step));
                }
                if k < prev.len() && r < prev[k].runs.len() && prev[k].runs[r] == run {
                    assert(holds_forward_except(prev[k].runs[r].series, was));
                } else if run.series.len() <= 1 {
                } else {
                    match records[n - 1] {
                        Record::Study(study) => {
                            let p = resolve_spec(problems, study.id@);
                            let o = resolve_spec(optimizers, study.id@);
                            match study_index(prev, p, o) {
                                Some(k0) => {
                                    assert(is_study_index(prev, p, o, k0));
                                    if k == k0 {
                                        match run_index(prev[k0].runs, study.id@) {
                                            Some(r0) => {
                                                assert(is_run_index(prev[k0].runs, study.id@, r0));
                                                assert(run == fresh_run(study.id@)
                                                    || run == prev[k].runs[r]);
                                            },
                                            None => {
                                                assert(run == fresh_run(study.id@)
                                                    || run == prev[k].runs[r]);
                                            },
                                        }
                                    } else {
                                        assert(cur[k] == prev[k]);
                                    }
                                },
                                None => {
                                    if k < prev.len() {
                                        assert(cur[k] == prev[k]);
                                    } else {
                                        assert(run == fresh_run(study.id@));
                                    }
                                },
                            }
                        },
                        Record::Eval(eval) => {
                            let p = resolve_spec(problems, eval.study@);
                            let o = resolve_spec(optimizers, eval.study@);
                            let k0 = study_index(prev, p, o)->0;
                            let r0 = run_index(prev[k0].runs, eval.study@)->0;
                            assert(cur != prev);
                            assert(is_study_index(prev, p, o, k0));
                            assert(is_run_index(prev[k0].runs, eval.study@, r0));
                            if k == k0 && r == r0 {
                                let step = eval.spans@[self.span_index as int] as int;
                                let old_series = prev[k0].runs[r0].series;
                                assert(holds_forward_except(
                                    old_series,
                                    self.trial_steps(records, n - 1, prev[k0].runs[r0].id),
                                ));
                                lemma_observed_holds_forward(
                                    old_series,
                                    was,
                                    step,
                                    eval.values@[self.objective_index as int],
                                    prev[k0].direction,
                                );
                                assert(self.ends_at(records[n - 1], run.id, step));
                                assert(now.contains(step));
                            } else if k == k0 {
                                assert(run == prev[k].runs[r]);
                            } else {
                                assert(cur[k] == prev[k]);
                            }
                        },
                    }
                }
            }
        }
    }

    /// Hold-forward in the final curves, as `lemma_accumulated_holds_forward`
    /// states it of the records taken in.
    pub proof fn lemma_curves_hold_forward(
        &self,
        records: Seq<Record>,
        problems: Map<Seq<char>, Seq<char>>,
        optimizers: Map<Seq<char>, Seq<char>>,
    )
        requires
            self.curves(records, problems, optimizers) is Ok,
        ensures
            hold_forward(
                *self,
                self.curves(records, problems, optimizers)->Ok_0,
                records,
                records.len() as int,
            ),
    {
        let n = records.len() as int;
        self.lemma_accumulated_holds_forward(records, n, problems, optimizers);
        let seen = self.accumulated(records, n, problems, optimizers)->Ok_0;
        let done = self.curves(records, problems, optimizers)->Ok_0;
        assert(done == seen.map_values(|s: StudyView| finalized(s)));
        assert forall|k: int, r: int|
            0 <= k < done.len() && 0 <= r < done[k].runs.len() implies holds_forward_except(
            (#[trigger] done[k].runs[r]).series,
            self.trial_steps(records, n, done[k].runs[r].id),
        ) by {
            assert(done[k] == finalized(seen[k]));
            assert(done[k].runs[r] == seen[k].runs[r]);
        }
    }
}

/// A run that is among `runs` is found there.
pub proof fn lemma_run_found(runs: Seq<RunView>, id: Seq<char>, a: int)
    requires
        0 <= a < runs.len(),
        runs[a].id == id,
    ensures
        run_index(runs, id) is Some,
    decreases a,
{
    if forall|j: int| 0 <= j < a ==> (#[trigger] runs[j]).id != id {
        assert(is_run_index(runs, id, a));
    } else {
        let j = choose|j: int| 0 <= j < a && (#[trigger] runs[j]).id == id;
        lemma_run_found(runs, id, j);
    }
}

/// A study that is among `studies` is found there.
pub proof fn lemma_study_found(
    studies: Seq<StudyView>,
    problem: Seq<char>,
    optimizer: Seq<char>,
    a: int,
)
    requires
        0 <= a < studies.len(),
        studies[a].problem == problem,
        studies[a].optimizer == optimizer,
    ensures
        study_index(studies, problem, optimizer) is Some,
    decreases a,
{
    if forall|j: int|
        0 <= j < a ==> !((#[trigger] studies[j]).problem == problem && studies[j].optimizer
            == optimizer) {
        assert(is_study_index(studies, problem, optimizer, a));
    } else {
        let j = choose|j: int|
            0 <= j < a && (#[trigger] studies[j]).problem == problem && studies[j].optimizer
                == optimizer;
        lemma_study_found(studies, problem, optimizer, j);
    }
}

/// Registering a run keeps a study well formed.
pub proof fn lemma_with_run_well_formed(s: StudyView, id: Seq<char>)
    requires
        s.well_formed(),
    ensures
        s.with_runs(with_run(s.runs, id)).well_formed(),
{
    let t = s.with_runs(with_run(s.runs, id));
    assert(is_best_so_far(fresh_run(id).series, s.direction));
    assert forall|r: int| 0 <= r < t.runs.len() implies is_best_so_far(
        (#[trigger] t.runs[r]).series,
        t.direction,
    ) by {
        if r < s.runs.len() {
            assert(t.runs[r] == s.runs[r] || t.runs[r] == fresh_run(id));
        }
    }
    assert forall|a: int, b: int| 0 <= a < b < t.runs.len() implies (#[trigger] t.runs[a]).id != (
    #[trigger] t.runs[b]).id by {
        match run_index(s.runs, id) {
            Some(r) => {
                assert(is_run_index(s.runs, id, r));
                assert(t.runs[a].id == s.runs[a].id);
                assert(t.runs[b].id == s.runs[b].id);
            },
            None => {
                if b == s.runs.len() {
                    assert(t.runs[a] == s.runs[a]);
                    if s.runs[a].id == id {
                        lemma_run_found(s.runs, id, a);
                    }
                } else {
                    assert(t.runs[a] == s.runs[a] && t.runs[b] == s.runs[b]);
                }
            },
        }
    }
}

} // verus!
