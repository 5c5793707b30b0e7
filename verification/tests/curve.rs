use hpo_insight::curve::{
    column_at, common_length, finalize, find_run, find_study, CurveError, CurveOpt, Run, Study,
};
use hpo_insight::keys::KeyMap;
use hpo_insight::record::{
    Direction, EvalRecord, EvalState, ParamDef, ParamValue, Record, Scale, SpanDef, StudyRecord,
    ValueDef,
};

fn opt() -> CurveOpt {
    CurveOpt {
        span_index: 0,
        objective_index: 0,
        problem_name: String::from("attrs.problem"),
        optimizer_name: String::from("attrs.optimizer"),
    }
}

fn study(id: &str, problem: &str, optimizer: &str, direction: Direction) -> Record {
    Record::Study(StudyRecord {
        id: id.to_string(),
        attrs: vec![
            ("problem".to_string(), problem.to_string()),
            ("optimizer".to_string(), optimizer.to_string()),
        ],
        spans: vec![SpanDef { name: "step".to_string() }],
        params: vec![ParamDef { name: "x".to_string(), scale: Scale::Linear }],
        values: vec![ValueDef { name: "loss".to_string(), direction }],
    })
}

fn eval(id: &str, state: EvalState, step: usize, value: i64) -> Record {
    Record::Eval(EvalRecord {
        study: id.to_string(),
        state,
        spans: vec![step],
        params: vec![ParamValue { value: 0, log: 0 }],
        values: vec![value],
    })
}

fn keys(entries: &[(&str, &str)]) -> KeyMap {
    let mut map = KeyMap::new();
    for (id, key) in entries {
        map.insert(id.to_string(), key.to_string());
    }
    map
}

fn two_runs() -> Vec<Record> {
    vec![
        study("run1", "sphere", "random", Direction::Minimize),
        study("run2", "sphere", "random", Direction::Minimize),
        eval("run1", EvalState::Complete, 0, 5),
        eval("run2", EvalState::Complete, 0, 6),
        eval("run1", EvalState::Complete, 1, 3),
        eval("run2", EvalState::Complete, 1, 2),
        eval("run1", EvalState::Complete, 2, 4),
        eval("run2", EvalState::Complete, 2, 2),
    ]
}

fn mean(column: &[i64]) -> f64 {
    column.iter().map(|v| *v as f64).sum::<f64>() / column.len() as f64
}

#[test]
fn two_runs_of_one_problem_and_optimizer_are_merged() {
    let records = two_runs();
    let problems = keys(&[("run1", "sphere"), ("run2", "sphere")]);
    let optimizers = keys(&[("run1", "random"), ("run2", "random")]);
    let studies = opt().build_studies(&records, &problems, &optimizers).unwrap();
    assert_eq!(studies.len(), 1);
    let s = &studies[0];
    assert_eq!(s.problem, "sphere");
    assert_eq!(s.optimizer, "random");
    assert_eq!(s.span_name, "step");
    assert_eq!(s.objective.name, "loss");
    assert_eq!(s.objective.direction, Direction::Minimize);
    assert_eq!(s.samples, 2);
    assert_eq!(s.best_values.len(), 2);
    assert_eq!(s.best_values[0].id, "run1");
    assert_eq!(s.best_values[0].series, vec![Some(5), Some(3), Some(3)]);
    assert_eq!(s.best_values[1].id, "run2");
    assert_eq!(s.best_values[1].series, vec![Some(6), Some(2), Some(2)]);
    assert_eq!(s.aligned, vec![Some(vec![5, 6]), Some(vec![3, 2]), Some(vec![3, 2])]);
    assert_eq!(mean(s.aligned[2].as_ref().unwrap()), 2.5);
    assert_eq!(mean(s.aligned[0].as_ref().unwrap()), 5.5);
}

#[test]
fn keys_name_problem_and_optimizer() {
    let mut records = two_runs();
    records.push(study("run3", "sphere", "tpe", Direction::Minimize));
    records.push(eval("run3", EvalState::Complete, 0, 1));
    let problems = keys(&[("run1", "sphere"), ("run2", "sphere"), ("run3", "sphere")]);
    let optimizers = keys(&[("run1", "random"), ("run2", "random"), ("run3", "tpe")]);
    let studies = opt().calculate_optimization_curve(&records, &problems, &optimizers).unwrap();
    assert_eq!(studies.len(), 2);
    assert_eq!(studies[0].problem, "sphere");
    assert_eq!(studies[0].optimizer, "random");
    assert_eq!(studies[0].samples, 2);
    assert_eq!(studies[0].aligned[2], Some(vec![3, 2]));
    assert_eq!(studies[1].problem, "sphere");
    assert_eq!(studies[1].optimizer, "tpe");
    assert_eq!(studies[1].samples, 1);
    assert_eq!(studies[1].best_values[0].series, vec![Some(1)]);
    assert_eq!(studies[1].aligned, vec![Some(vec![1])]);
}

#[test]
fn no_records_give_no_curves() {
    let none = KeyMap::new();
    let studies = opt().calculate_optimization_curve(&Vec::new(), &none, &none).unwrap();
    assert!(studies.is_empty());
    assert!(opt().skipped_studies(&Vec::new(), &none, &none).is_empty());
}

#[test]
fn no_study_and_no_run_is_there_twice() {
    let records = vec![
        study("a", "p", "o", Direction::Minimize),
        study("b", "p", "o", Direction::Minimize),
        study("a", "p", "o", Direction::Minimize),
        study("c", "p", "x", Direction::Minimize),
        study("b", "p", "o", Direction::Minimize),
        study("d", "q", "o", Direction::Minimize),
        study("c", "p", "x", Direction::Minimize),
    ];
    let problems = keys(&[("a", "p"), ("b", "p"), ("c", "p"), ("d", "q")]);
    let optimizers = keys(&[("a", "o"), ("b", "o"), ("c", "x"), ("d", "o")]);
    let studies = opt().build_studies(&records, &problems, &optimizers).unwrap();
    let pairs: Vec<(&str, &str)> =
        studies.iter().map(|s| (s.problem.as_str(), s.optimizer.as_str())).collect();
    assert_eq!(pairs, vec![("p", "o"), ("p", "x"), ("q", "o")]);
    let runs: Vec<&str> = studies[0].best_values.iter().map(|r| r.id.as_str()).collect();
    assert_eq!(runs, vec!["a", "b"]);
    assert_eq!(studies[0].samples, 2);
}

#[test]
fn skipped_studies_are_named_once_in_order() {
    let records = vec![
        eval("late", EvalState::Complete, 0, 1),
        study("a", "p", "o", Direction::Minimize),
        eval("ghost", EvalState::Complete, 0, 1),
        eval("a", EvalState::Complete, 0, 9),
        eval("late", EvalState::Complete, 1, 1),
        eval("other", EvalState::Failed, 0, 1),
        eval("ghost", EvalState::Complete, 2, 1),
        study("late", "p", "o", Direction::Minimize),
        eval("late", EvalState::Complete, 2, 1),
        eval("zz", EvalState::Complete, 2, 1),
    ];
    let none = KeyMap::new();
    assert_eq!(opt().skipped_studies(&records, &none, &none), vec!["late", "ghost", "zz"]);
    let only_known = vec![
        study("a", "p", "o", Direction::Minimize),
        eval("a", EvalState::Complete, 0, 9),
    ];
    assert!(opt().skipped_studies(&only_known, &none, &none).is_empty());
}

#[test]
fn nothing_is_skipped_behind_a_record_that_fails() {
    let records = vec![
        eval("ghost", EvalState::Complete, 0, 1),
        study("a", "p", "o", Direction::Minimize),
        eval("a", EvalState::Complete, usize::MAX, 9),
        eval("later", EvalState::Complete, 0, 1),
    ];
    let none = KeyMap::new();
    assert_eq!(opt().skipped_studies(&records, &none, &none), vec!["ghost"]);
}

#[test]
fn study_without_keys_is_filed_under_its_own_id() {
    let records = vec![
        study("a", "p", "o", Direction::Maximize),
        eval("a", EvalState::Complete, 1, 4),
    ];
    let studies = opt().build_studies(&records, &KeyMap::new(), &KeyMap::new()).unwrap();
    assert_eq!(studies.len(), 1);
    assert_eq!(studies[0].problem, "a");
    assert_eq!(studies[0].optimizer, "a");
    assert_eq!(studies[0].best_values[0].series, vec![None, Some(4)]);
    assert_eq!(studies[0].aligned, vec![None, Some(vec![4])]);
}

#[test]
fn trial_that_is_not_complete_is_skipped() {
    for state in [EvalState::Interim, EvalState::Failed, EvalState::Infeasible] {
        let records = vec![
            study("a", "p", "o", Direction::Minimize),
            eval("a", EvalState::Complete, 0, 9),
            eval("a", state, 3, 1),
        ];
        let studies = opt().build_studies(&records, &KeyMap::new(), &KeyMap::new()).unwrap();
        assert_eq!(studies[0].best_values[0].series, vec![Some(9)]);
    }
}

#[test]
fn trial_of_an_unknown_study_is_skipped() {
    let records = vec![
        study("a", "p", "o", Direction::Minimize),
        eval("ghost", EvalState::Complete, 0, 1),
        eval("a", EvalState::Complete, 0, 9),
    ];
    let studies = opt().build_studies(&records, &KeyMap::new(), &KeyMap::new()).unwrap();
    assert_eq!(studies.len(), 1);
    assert_eq!(studies[0].best_values.len(), 1);
    assert_eq!(studies[0].best_values[0].series, vec![Some(9)]);
}

#[test]
fn trial_before_its_study_is_skipped() {
    let records = vec![
        eval("a", EvalState::Complete, 0, 1),
        study("a", "p", "o", Direction::Minimize),
        eval("a", EvalState::Complete, 1, 9),
    ];
    let studies = opt().build_studies(&records, &KeyMap::new(), &KeyMap::new()).unwrap();
    assert_eq!(studies[0].best_values[0].series, vec![None, Some(9)]);
}

#[test]
fn first_study_of_a_pair_decides_span_and_objective() {
    let mut second = StudyRecord {
        id: "b".to_string(),
        attrs: Vec::new(),
        spans: vec![SpanDef { name: "seconds".to_string() }],
        params: Vec::new(),
        values: vec![ValueDef { name: "accuracy".to_string(), direction: Direction::Maximize }],
    };
    second.attrs.push(("unused".to_string(), "x".to_string()));
    let records = vec![
        study("a", "p", "o", Direction::Minimize),
        Record::Study(second),
        eval("b", EvalState::Complete, 0, 5),
        eval("b", EvalState::Complete, 1, 7),
    ];
    let problems = keys(&[("a", "p"), ("b", "p")]);
    let optimizers = keys(&[("a", "o"), ("b", "o")]);
    let studies = opt().build_studies(&records, &problems, &optimizers).unwrap();
    assert_eq!(studies.len(), 1);
    assert_eq!(studies[0].span_name, "step");
    assert_eq!(studies[0].objective.name, "loss");
    assert_eq!(studies[0].objective.direction, Direction::Minimize);
    assert_eq!(studies[0].best_values[1].series, vec![Some(5), Some(5)]);
    assert_eq!(studies[0].aligned, vec![None]);
}

#[test]
fn study_record_seen_again_starts_its_run_afresh() {
    let records = vec![
        study("a", "p", "o", Direction::Minimize),
        eval("a", EvalState::Complete, 2, 5),
        study("a", "p", "o", Direction::Minimize),
    ];
    let studies = opt().build_studies(&records, &KeyMap::new(), &KeyMap::new()).unwrap();
    assert_eq!(studies.len(), 1);
    assert_eq!(studies[0].samples, 1);
    assert_eq!(studies[0].best_values[0].series, vec![None]);
    assert_eq!(studies[0].aligned, vec![None]);
}

#[test]
fn aligned_steps_stop_at_the_shortest_run() {
    let records = vec![
        study("a", "p", "o", Direction::Maximize),
        study("b", "p", "o", Direction::Maximize),
        eval("a", EvalState::Complete, 1, 5),
        eval("a", EvalState::Complete, 4, 8),
        eval("b", EvalState::Complete, 0, 7),
        eval("b", EvalState::Complete, 2, 6),
    ];
    let problems = keys(&[("a", "p"), ("b", "p")]);
    let optimizers = keys(&[("a", "o"), ("b", "o")]);
    let studies = opt().build_studies(&records, &problems, &optimizers).unwrap();
    let s = &studies[0];
    assert_eq!(s.best_values[0].series, vec![None, Some(5), Some(5), Some(5), Some(8)]);
    assert_eq!(s.best_values[1].series, vec![Some(7), Some(7), Some(7)]);
    assert_eq!(s.aligned, vec![None, Some(vec![5, 7]), Some(vec![5, 7])]);
    assert_eq!(s.samples, 2);
}

#[test]
fn span_index_out_of_range_is_an_error() {
    let mut o = opt();
    o.span_index = 1;
    let records = vec![study("a", "p", "o", Direction::Minimize)];
    let r = o.build_studies(&records, &KeyMap::new(), &KeyMap::new());
    assert!(matches!(r, Err(CurveError::SpanIndexOutOfRange { record: 0 })));

    let records = vec![
        study("a", "p", "o", Direction::Minimize),
        Record::Eval(EvalRecord {
            study: "a".to_string(),
            state: EvalState::Complete,
            spans: Vec::new(),
            params: Vec::new(),
            values: vec![1],
        }),
    ];
    let r = opt().build_studies(&records, &KeyMap::new(), &KeyMap::new());
    assert!(matches!(r, Err(CurveError::SpanIndexOutOfRange { record: 1 })));
}

#[test]
fn objective_index_out_of_range_is_an_error() {
    let mut o = opt();
    o.objective_index = 3;
    let records = vec![study("a", "p", "o", Direction::Minimize)];
    let r = o.build_studies(&records, &KeyMap::new(), &KeyMap::new());
    assert!(matches!(r, Err(CurveError::ObjectiveIndexOutOfRange { record: 0 })));

    let records = vec![
        study("a", "p", "o", Direction::Minimize),
        eval("a", EvalState::Complete, 0, 1),
        Record::Eval(EvalRecord {
            study: "a".to_string(),
            state: EvalState::Complete,
            spans: vec![1],
            params: Vec::new(),
            values: Vec::new(),
        }),
    ];
    let r = opt().build_studies(&records, &KeyMap::new(), &KeyMap::new());
    assert!(matches!(r, Err(CurveError::ObjectiveIndexOutOfRange { record: 2 })));
}

#[test]
fn step_beyond_any_series_is_an_error() {
    let records = vec![
        study("a", "p", "o", Direction::Minimize),
        eval("a", EvalState::Complete, usize::MAX, 1),
    ];
    let r = opt().build_studies(&records, &KeyMap::new(), &KeyMap::new());
    assert!(matches!(r, Err(CurveError::StepOutOfRange { record: 1 })));
}

#[test]
fn skipped_trial_is_not_checked_for_its_indices() {
    let records = vec![
        study("a", "p", "o", Direction::Minimize),
        Record::Eval(EvalRecord {
            study: "a".to_string(),
            state: EvalState::Failed,
            spans: Vec::new(),
            params: Vec::new(),
            values: Vec::new(),
        }),
        Record::Eval(EvalRecord {
            study: "ghost".to_string(),
            state: EvalState::Complete,
            spans: Vec::new(),
            params: Vec::new(),
            values: Vec::new(),
        }),
    ];
    let studies = opt().build_studies(&records, &KeyMap::new(), &KeyMap::new()).unwrap();
    assert_eq!(studies[0].best_values[0].series, vec![None]);
}

#[test]
fn finalize_counts_runs_and_lays_them_side_by_side() {
    let mut studies = vec![Study {
        problem: "p".to_string(),
        optimizer: "o".to_string(),
        span_name: "step".to_string(),
        objective: ValueDef { name: "loss".to_string(), direction: Direction::Minimize },
        best_values: vec![
            Run { id: "a".to_string(), series: vec![Some(3), Some(1)] },
            Run { id: "b".to_string(), series: vec![None, Some(2), Some(2)] },
            Run { id: "c".to_string(), series: vec![Some(9), Some(9), Some(9), Some(9)] },
        ],
        aligned: Vec::new(),
        samples: 0,
    }];
    assert_eq!(common_length(&studies[0].best_values), 2);
    assert_eq!(column_at(&studies[0].best_values, 0), None);
    assert_eq!(column_at(&studies[0].best_values, 1), Some(vec![1, 2, 9]));
    finalize(&mut studies);
    assert_eq!(studies[0].samples, 3);
    assert_eq!(studies[0].aligned, vec![None, Some(vec![1, 2, 9])]);
    assert_eq!(find_study(&studies, &"p".to_string(), &"o".to_string()), Some(0));
    assert_eq!(find_study(&studies, &"p".to_string(), &"x".to_string()), None);
    assert_eq!(find_run(&studies[0].best_values, &"b".to_string()), Some(1));
    assert_eq!(find_run(&studies[0].best_values, &"z".to_string()), None);
}

#[test]
fn step_without_a_trial_repeats_the_step_before() {
    let trials = [(4usize, 10i64), (1, 12), (9, 3), (0, 20), (6, 11), (9, 1), (12, 0)];
    for direction in [Direction::Minimize, Direction::Maximize] {
        let mut records = vec![study("a", "p", "o", direction)];
        for (step, value) in trials {
            records.push(eval("a", EvalState::Complete, step, value));
        }
        records.push(eval("a", EvalState::Failed, 7, -5));
        let none = KeyMap::new();
        let studies = opt().build_studies(&records, &none, &none).unwrap();
        let series = &studies[0].best_values[0].series;
        assert_eq!(series.len(), 13);
        for k in 1..series.len() {
            if !trials.iter().any(|(step, _)| *step == k) {
                assert_eq!(series[k], series[k - 1]);
                assert_eq!(studies[0].aligned[k], studies[0].aligned[k - 1]);
            }
        }
    }
}
