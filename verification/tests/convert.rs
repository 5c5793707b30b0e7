use hpo_insight::convert::csv::{
    build_tables, find_table, row_of, ConvertCsvOpt, ConvertError, Table,
};
use hpo_insight::convert::ConvertOpt;
use hpo_insight::keys::{KeyError, KeyMap, Outcome, ScriptError};
use hpo_insight::record::{
    Direction, EvalRecord, EvalState, ParamDef, ParamValue, Record, Scale, SpanDef, StudyRecord,
    ValueDef,
};

fn study(id: &str, table: &str) -> StudyRecord {
    StudyRecord {
        id: id.to_string(),
        attrs: vec![("table".to_string(), table.to_string())],
        spans: vec![SpanDef { name: "step".to_string() }],
        params: vec![
            ParamDef { name: "x".to_string(), scale: Scale::Linear },
            ParamDef { name: "y".to_string(), scale: Scale::Log },
        ],
        values: vec![
            ValueDef { name: "loss".to_string(), direction: Direction::Minimize },
            ValueDef { name: "time".to_string(), direction: Direction::Minimize },
        ],
    }
}

fn eval(id: &str, state: EvalState, params: &[i64], values: &[i64]) -> EvalRecord {
    EvalRecord {
        study: id.to_string(),
        state,
        spans: vec![0],
        params: params.iter().map(|p| ParamValue { value: *p, log: -*p }).collect(),
        values: values.to_vec(),
    }
}

fn records() -> Vec<Record> {
    vec![
        Record::Study(study("s1", "t")),
        Record::Eval(eval("s1", EvalState::Complete, &[1, 2], &[3, 4])),
        Record::Study(study("s2", "t")),
        Record::Eval(eval("s2", EvalState::Failed, &[5, 6], &[7, 8])),
        Record::Eval(eval("s2", EvalState::Complete, &[9, 10], &[11, 12])),
        Record::Eval(eval("ghost", EvalState::Complete, &[0, 0], &[0, 0])),
        Record::Study(study("s3", "u")),
    ]
}

#[test]
fn row_holds_parameters_then_objectives() {
    assert_eq!(row_of(&eval("s", EvalState::Complete, &[1, 2], &[3])), vec![1, 2, 3]);
    assert_eq!(row_of(&eval("s", EvalState::Complete, &[], &[])), Vec::<i64>::new());
}

#[test]
fn new_table_names_parameters_then_objectives() {
    let t = Table::new("t".to_string(), &study("s", "t"));
    assert_eq!(t.name, "t");
    assert_eq!(t.column_names, vec!["x", "y", "loss", "time"]);
    assert!(t.rows.is_empty());
}

#[test]
fn tables_are_kept_by_key() {
    let mut keys = KeyMap::new();
    keys.insert("s1".to_string(), "t".to_string());
    keys.insert("s2".to_string(), "t".to_string());
    let tables = build_tables(&records(), &keys);
    assert_eq!(tables.len(), 2);
    assert_eq!(tables[0].name, "t");
    assert_eq!(tables[0].rows, vec![vec![1, 2, 3, 4], vec![9, 10, 11, 12]]);
    assert_eq!(tables[1].name, "s3");
    assert!(tables[1].rows.is_empty());
    assert_eq!(find_table(&tables, &"s3".to_string()), Some(1));
    assert_eq!(find_table(&tables, &"ghost".to_string()), None);
}

#[test]
fn convert_names_tables_by_the_keys() {
    let opt = ConvertOpt::Csv(ConvertCsvOpt {
        table_name: "attrs.table".to_string(),
        out: "result/csv/".to_string(),
    });
    let outcomes: Vec<Outcome> =
        vec![Ok("t".to_string()), Ok("t".to_string()), Ok("u".to_string())];
    let tables = opt.convert(&records(), &outcomes).unwrap();
    assert_eq!(tables.len(), 2);
    assert_eq!(tables[0].name, "t");
    assert_eq!(tables[0].column_names, vec!["x", "y", "loss", "time"]);
    assert_eq!(tables[0].rows, vec![vec![1, 2, 3, 4], vec![9, 10, 11, 12]]);
    assert_eq!(tables[1].name, "u");
}

#[test]
fn convert_fails_with_the_keying() {
    let opt = ConvertCsvOpt { table_name: "nil".to_string(), out: String::new() };
    let failed: Vec<Outcome> = vec![Err(ScriptError { message: "nil".to_string() })];
    assert!(matches!(
        opt.convert(&records(), &failed),
        Err(ConvertError::Key(KeyError::Script { record: 0, .. }))
    ));
    assert!(matches!(
        opt.convert(&records(), &Vec::new()),
        Err(ConvertError::Key(KeyError::Missing { record: 0 }))
    ));
    assert!(opt.convert(&Vec::new(), &failed).unwrap().is_empty());
}
