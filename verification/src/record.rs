//! The records that the analyses consume.
//!
//! Objective values, parameter values and scores are carried as `i64`
//! codes: integers whose order is the order of the quantities they
//! stand for. Steps along a progress axis are carried as `usize`. The
//! library does no arithmetic on codes, so a parameter value comes with
//! the code of its logarithm.

use vstd::prelude::*;

verus! {

/// Whether an objective is better when smaller or when larger.
#[derive(Clone, Copy, Debug, PartialEq, Eq, Structural)]
pub enum Direction {
    Minimize,
    Maximize,
}

impl Direction {
    /// The better of two values: the smaller one when minimizing, the
    /// larger one when maximizing.
    pub open spec fn better_spec(self, x: i64, y: i64) -> i64 {
        match self {
            Direction::Minimize => if x <= y { x } else { y },
            Direction::Maximize => if x >= y { x } else { y },
        }
    }

    /// `x` is at least as good as `y`.
    pub open spec fn at_least_as_good(self, x: i64, y: i64) -> bool {
        match self {
            Direction::Minimize => x <= y,
            Direction::Maximize => x >= y,
        }
    }

    pub fn better(self, x: i64, y: i64) -> (r: i64)
        ensures
            r == self.better_spec(x, y),
    {
        match self {
            Direction::Minimize => if x <= y { x } else { y },
            Direction::Maximize => if x >= y { x } else { y },
        }
    }

    pub fn is_minimize(self) -> (r: bool)
        ensures
            r == (self == Direction::Minimize),
    {
        match self {
            Direction::Minimize => true,
            Direction::Maximize => false,
        }
    }
}

/// How far a trial got.
#[derive(Clone, Copy, Debug, PartialEq, Eq, Structural)]
pub enum EvalState {
    Complete,
    Interim,
    Failed,
    Infeasible,
}

impl EvalState {
    pub fn is_complete(self) -> (r: bool)
        ensures
            r == (self == EvalState::Complete),
    {
        match self {
            EvalState::Complete => true,
            _ => false,
        }
    }
}

/// The scale on which a parameter is searched.
#[derive(Clone, Copy, Debug, PartialEq, Eq, Structural)]
pub enum Scale {
    Linear,
    Log,
}

/// A named progress axis, such as elapsed time or an iteration count.
#[derive(Clone, Debug)]
pub struct SpanDef {
    pub name: String,
}

/// A parameter of a study. A categorical parameter has the linear scale.
#[derive(Clone, Debug)]
pub struct ParamDef {
    pub name: String,
    pub scale: Scale,
}

/// An objective of a study.
#[derive(Clone, Debug)]
pub struct ValueDef {
    pub name: String,
    pub direction: Direction,
}

impl ValueDef {
    /// A copy of this definition.
    pub fn duplicate(&self) -> (r: ValueDef)
        ensures
            r.name@ == self.name@,
            r.direction == self.direction,
    {
        ValueDef { name: self.name.clone(), direction: self.direction }
    }
}

/// The definition of a study: what its trials assign and measure.
#[derive(Clone, Debug)]
pub struct StudyRecord {
    pub id: String,
    /// Free-form attributes, by name; key scripts read them.
    pub attrs: Vec<(String, String)>,
    pub spans: Vec<SpanDef>,
    pub params: Vec<ParamDef>,
    pub values: Vec<ValueDef>,
}

/// The value that a trial gave to a parameter, with the natural
/// logarithm of that value.
#[derive(Clone, Copy, Debug, PartialEq, Eq, Structural)]
pub struct ParamValue {
    pub value: i64,
    pub log: i64,
}

/// One trial of a study. `spans` holds, for each progress axis of the
/// study, the step at which the trial ended; `params` and `values` are
/// aligned with the study's parameter and objective definitions.
#[derive(Clone, Debug)]
pub struct EvalRecord {
    pub study: String,
    pub state: EvalState,
    pub spans: Vec<usize>,
    pub params: Vec<ParamValue>,
    pub values: Vec<i64>,
}

#[derive(Clone, Debug)]
pub enum Record {
    Study(StudyRecord),
    Eval(EvalRecord),
}

impl Record {
    /// This record defines the study `id`.
    pub open spec fn defines(self, id: Seq<char>) -> bool {
        match self {
            Record::Study(s) => s.id@ == id,
            Record::Eval(_) => false,
        }
    }
}

/// The ids of the studies that the first `n` of `records` define.
pub open spec fn study_ids_before(records: Seq<Record>, n: int) -> Set<Seq<char>> {
    Set::new(
        |id: Seq<char>|
            exists|i: int| 0 <= i < n && i < records.len() && (#[trigger] records[i]).defines(id),
    )
}

/// The ids of the studies that `records` define.
pub open spec fn study_ids(records: Seq<Record>) -> Set<Seq<char>> {
    study_ids_before(records, records.len() as int)
}

/// What one more record adds to the ids defined so far.
pub proof fn lemma_study_ids_step(records: Seq<Record>, n: int)
    requires
        0 <= n < records.len(),
    ensures
        study_ids_before(records, n + 1) == match records[n] {
            Record::Study(s) => study_ids_before(records, n).insert(s.id@),
            Record::Eval(_) => study_ids_before(records, n),
        },
{
    let before = study_ids_before(records, n);
    let after = study_ids_before(records, n + 1);
    let expected = match records[n] {
        Record::Study(s) => before.insert(s.id@),
        Record::Eval(_) => before,
    };
    assert forall|id: Seq<char>| after.contains(id) <==> expected.contains(id) by {
        if after.contains(id) {
            let i = choose|i: int|
                0 <= i < n + 1 && i < records.len() && (#[trigger] records[i]).defines(id);
            if i < n {
                assert(before.contains(id));
            }
        }
        if expected.contains(id) {
            if before.contains(id) {
                let i = choose|i: int|
                    0 <= i < n && i < records.len() && (#[trigger] records[i]).defines(id);
                assert(records[i].defines(id));
            } else {
                assert(records[n].defines(id));
            }
        }
    }
    assert(after =~= expected);
}

} // verus!
