use hpo_insight::keys::{build_id_mapping, KeyError, KeyMap, Outcome, ScriptError};
use hpo_insight::record::{EvalRecord, EvalState, Record, StudyRecord};

fn study(id: &str) -> Record {
    Record::Study(StudyRecord {
        id: id.to_string(),
        attrs: vec![("solver".to_string(), "tpe".to_string())],
        spans: Vec::new(),
        params: Vec::new(),
        values: Vec::new(),
    })
}

fn eval(id: &str) -> Record {
    Record::Eval(EvalRecord {
        study: id.to_string(),
        state: EvalState::Complete,
        spans: Vec::new(),
        params: Vec::new(),
        values: Vec::new(),
    })
}

fn key(text: &str) -> Outcome {
    Ok(text.to_string())
}

fn failure(text: &str) -> Outcome {
    Err(ScriptError { message: text.to_string() })
}

#[test]
fn empty_key_map_resolves_to_the_id() {
    let keys = KeyMap::new();
    assert_eq!(keys.get(&"a".to_string()), None);
    assert!(!keys.contains_key(&"a".to_string()));
    assert_eq!(keys.resolve(&"a".to_string()), "a");
    assert_eq!(keys.resolve(&String::new()), "");
}

#[test]
fn inserted_key_is_found() {
    let mut keys = KeyMap::new();
    keys.insert("a".to_string(), "group".to_string());
    keys.insert("b".to_string(), "other".to_string());
    assert_eq!(keys.get(&"a".to_string()), Some(&"group".to_string()));
    assert_eq!(keys.resolve(&"b".to_string()), "other");
    assert!(keys.contains_key(&"b".to_string()));
    assert_eq!(keys.resolve(&"c".to_string()), "c");
}

#[test]
fn later_key_replaces_earlier_key() {
    let mut keys = KeyMap::new();
    keys.insert("a".to_string(), "first".to_string());
    keys.insert("b".to_string(), "kept".to_string());
    keys.insert("a".to_string(), "second".to_string());
    assert_eq!(keys.resolve(&"a".to_string()), "second");
    assert_eq!(keys.resolve(&"b".to_string()), "kept");
}

#[test]
fn assigned_key_goes_into_the_map() {
    let mut keys = KeyMap::new();
    assert!(keys.assign(&"a".to_string(), &key("g")).is_ok());
    assert!(keys.assign(&"b".to_string(), &key("h")).is_ok());
    assert!(keys.assign(&"a".to_string(), &key("i")).is_ok());
    assert_eq!(keys.resolve(&"a".to_string()), "i");
    assert_eq!(keys.resolve(&"b".to_string()), "h");
}

#[test]
fn assigned_failure_is_handed_back_and_changes_nothing() {
    let mut keys = KeyMap::new();
    keys.insert("a".to_string(), "g".to_string());
    let e = keys.assign(&"a".to_string(), &failure("broken")).unwrap_err();
    assert_eq!(e.message, "broken");
    let e = keys.assign(&"b".to_string(), &failure("again")).unwrap_err();
    assert_eq!(e.message, "again");
    assert_eq!(keys.resolve(&"a".to_string()), "g");
    assert!(!keys.contains_key(&"b".to_string()));
    assert_eq!(keys.entries.len(), 1);
}

#[test]
fn studies_take_the_outcomes_in_order() {
    let records = vec![study("s1"), eval("s1"), study("s2"), eval("unknown"), study("s3")];
    let outcomes = vec![key("tpe"), key("random"), key("tpe")];
    let keys = build_id_mapping(&records, &outcomes).unwrap();
    assert_eq!(keys.resolve(&"s1".to_string()), "tpe");
    assert_eq!(keys.resolve(&"s2".to_string()), "random");
    assert_eq!(keys.resolve(&"s3".to_string()), "tpe");
    assert!(!keys.contains_key(&"unknown".to_string()));
    assert_eq!(keys.entries.len(), 3);
}

#[test]
fn study_defined_twice_keeps_its_last_key() {
    let records = vec![study("s1"), study("s2"), study("s1")];
    let outcomes = vec![key("first"), key("other"), key("last")];
    let keys = build_id_mapping(&records, &outcomes).unwrap();
    assert_eq!(keys.resolve(&"s1".to_string()), "last");
    assert_eq!(keys.resolve(&"s2".to_string()), "other");
}

#[test]
fn first_failure_stops_the_keying() {
    let records = vec![eval("s0"), study("s1"), study("s2"), study("s3")];
    let outcomes = vec![key("a"), failure("broken"), failure("later")];
    match build_id_mapping(&records, &outcomes) {
        Err(KeyError::Script { record, error }) => {
            assert_eq!(record, 2);
            assert_eq!(error.message, "broken");
        }
        other => panic!("{:?}", other),
    }
}

#[test]
fn study_without_an_outcome_stops_the_keying() {
    let records = vec![study("s1"), eval("s1"), study("s2")];
    let r = build_id_mapping(&records, &vec![key("a")]);
    assert!(matches!(r, Err(KeyError::Missing { record: 2 })));
    let r = build_id_mapping(&records, &Vec::new());
    assert!(matches!(r, Err(KeyError::Missing { record: 0 })));
}

#[test]
fn outcomes_are_not_looked_at_without_a_study() {
    let records = vec![eval("s1"), eval("s2")];
    let keys = build_id_mapping(&records, &vec![failure("broken")]).unwrap();
    assert!(keys.entries.is_empty());
    let keys = build_id_mapping(&Vec::new(), &Vec::new()).unwrap();
    assert!(keys.entries.is_empty());
}

#[test]
fn outcomes_beyond_the_studies_are_left_alone() {
    let records = vec![study("s1")];
    let keys = build_id_mapping(&records, &vec![key("a"), failure("unused")]).unwrap();
    assert_eq!(keys.resolve(&"s1".to_string()), "a");
}
