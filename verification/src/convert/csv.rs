//! Tables of trials: per group of studies one table, a column per
//! parameter and per objective, a row per complete trial.

use vstd::prelude::*;
use crate::keys::{build_id_mapping, key_mapping, resolve_spec, KeyError, KeyMap, Outcome};
use crate::record::{
    EvalRecord, EvalState, ParamDef, ParamValue, Record, StudyRecord, ValueDef,
};

verus! {

/// The key script that names a study's table, and where the tables go.
/// The script is evaluated outside the library, which takes what it gave.
#[derive(Debug)]
pub struct ConvertCsvOpt {
    pub table_name: String,
    pub out: String,
}

/// One table.
#[derive(Debug)]
pub struct Table {
    pub name: String,
    pub column_names: Vec<String>,
    pub rows: Vec<Vec<i64>>,
}

/// Why no tables were made.
#[derive(Debug)]
pub enum ConvertError {
    /// The studies have no table names.
    Key(KeyError),
}

/// What a table holds.
pub struct TableView {
    pub name: Seq<char>,
    pub column_names: Seq<Seq<char>>,
    pub rows: Seq<Seq<i64>>,
}

impl View for Table {
    type V = TableView;

    open spec fn view(&self) -> TableView {
        TableView {
            name: self.name@,
            column_names: self.column_names@.map_values(|s: String| s@),
            rows: self.rows@.map_values(|r: Vec<i64>| r@),
        }
    }
}

/// What a list of tables holds.
pub open spec fn tables_view(tables: Seq<Table>) -> Seq<TableView> {
    tables.map_values(|t: Table| t@)
}

/// The empty table `name` of a study: the names of its parameters, then
/// those of its objectives.
pub open spec fn new_table(name: Seq<char>, study: StudyRecord) -> TableView {
    TableView {
        name,
        column_names: study.params@.map_values(|d: ParamDef| d.name@) + study.values@.map_values(
            |d: ValueDef| d.name@,
        ),
        rows: Seq::empty(),
    }
}

/// `k` is the first place in `tables` that holds the table `name`.
pub open spec fn is_table_index(tables: Seq<TableView>, name: Seq<char>, k: int) -> bool {
    &&& 0 <= k < tables.len()
    &&& tables[k].name == name
    &&& forall|j: int| 0 <= j < k ==> (#[trigger] tables[j]).name != name
}

/// Where the table `name` stands, if it is there.
pub open spec fn table_index(tables: Seq<TableView>, name: Seq<char>) -> Option<int> {
    if exists|k: int| is_table_index(tables, name, k) {
        Some(choose|k: int| is_table_index(tables, name, k))
    } else {
        None
    }
}

impl TableView {
    /// The table with one more row.
    pub open spec fn with_row(self, row: Seq<i64>) -> TableView {
        TableView { rows: self.rows.push(row), ..self }
    }
}

/// The row of a trial: its parameter values, then its objective values.
pub open spec fn row(eval: EvalRecord) -> Seq<i64> {
    eval.params@.map_values(|p: ParamValue| p.value) + eval.values@
}

/// The tables after one more record was seen. A study record starts the
/// table of its group unless the group has one; a complete trial whose
/// group has a table adds a row: its parameter values, then its
/// objective values.
pub open spec fn record_tabled(
    tables: Seq<TableView>,
    rec: Record,
    keys: Map<Seq<char>, Seq<char>>,
) -> Seq<TableView> {
    match rec {
        Record::Study(study) => {
            let name = resolve_spec(keys, study.id@);
            match table_index(tables, name) {
                Some(_) => tables,
                None => tables.push(new_table(name, study)),
            }
        },
        Record::Eval(eval) => if eval.state != EvalState::Complete {
            tables
        } else {
            match table_index(tables, resolve_spec(keys, eval.study@)) {
                None => tables,
                Some(k) => tables.update(k, tables[k].with_row(row(eval))),
            }
        },
    }
}

/// The tables after the first `n` records were seen, in order.
pub open spec fn tabled(records: Seq<Record>, n: int, keys: Map<Seq<char>, Seq<char>>) -> Seq<
    TableView,
>
    decreases n,
{
    if n <= 0 {
        Seq::empty()
    } else {
        record_tabled(tabled(records, n - 1, keys), records[n - 1], keys)
    }
}

/// No two tables have the same name.
pub open spec fn distinct_tables(tables: Seq<TableView>) -> bool {
    forall|a: int, b: int|
        0 <= a < b < tables.len() ==> (#[trigger] tables[a]).name != (#[trigger] tables[b]).name
}

/// A table that is among `tables` is found there.
pub proof fn lemma_table_found(tables: Seq<TableView>, name: Seq<char>, a: int)
    requires
        0 <= a < tables.len(),
        tables[a].name == name,
    ensures
        table_index(tables, name) is Some,
    decreases a,
{
    if forall|j: int| 0 <= j < a ==> (#[trigger] tables[j]).name != name {
        assert(is_table_index(tables, name, a));
    } else {
        let j = choose|j: int| 0 <= j < a && (#[trigger] tables[j]).name == name;
        lemma_table_found(tables, name, j);
    }
}

/// Finds the table `name`.
pub fn find_table(tables: &Vec<Table>, name: &String) -> (r: Option<usize>)
    ensures
        match r {
            Some(k) => table_index(tables_view(tables@), name@) == Some(k as int) && k
                < tables@.len(),
            None => table_index(tables_view(tables@), name@).is_none(),
        },
{
    let ghost tv = tables_view(tables@);
    let mut k: usize = 0;
    while k < tables.len()
        invariant
            k <= tables@.len(),
            tv == tables_view(tables@),
            forall|j: int| 0 <= j < k ==> (#[trigger] tv[j]).name != name@,
        decreases tables@.len() - k,
    {
        if tables[k].name == *name {
            assert(is_table_index(tv, name@, k as int));
            return Some(k);
        }
        k = k + 1;
    }
    None
}

impl Table {
    /// The empty table `name` of a study.
    pub fn new(name: String, record: &StudyRecord) -> (r: Table)
        ensures
            r@ == new_table(name@, *record),
    {
        let mut column_names: Vec<String> = Vec::new();
        let ghost params = record.params@.map_values(|d: ParamDef| d.name@);
        let ghost values = record.values@.map_values(|d: ValueDef| d.name@);
        let mut j: usize = 0;
        while j < record.params.len()
            invariant
                j <= record.params@.len(),
                params == record.params@.map_values(|d: ParamDef| d.name@),
                column_names@.len() == j,
                forall|k: int| 0 <= k < j ==> (#[trigger] column_names@[k])@ == params[k],
            decreases record.params@.len() - j,
        {
            column_names.push(record.params[j].name.clone());
            j = j + 1;
        }
        let mut i: usize = 0;
        while i < record.values.len()
            invariant
                i <= record.values@.len(),
                values == record.values@.map_values(|d: ValueDef| d.name@),
                column_names@.len() == params.len() + i,
                forall|k: int|
                    0 <= k < params.len() ==> (#[trigger] column_names@[k])@ == params[k],
                forall|k: int|
                    0 <= k < i ==> (#[trigger] column_names@[params.len() + k])@ == values[k],
            decreases record.values@.len() - i,
        {
            column_names.push(record.values[i].name.clone());
            i = i + 1;
        }
        proof {
            let names = column_names@.map_values(|s: String| s@);
            assert forall|k: int| 0 <= k < names.len() implies names[k] == (params + values)[k] by {
                if k >= params.len() {
                    assert(column_names@[params.len() + (k - params.len())]@ == values[k
                        - params.len()]);
                }
            }
            assert(names =~= params + values);
        }
        let r = Table { name, column_names, rows: Vec::new() };
        assert(r@.rows =~= Seq::empty());
        r
    }
}

/// The row of a trial: its parameter values, then its objective values.
pub fn row_of(eval: &EvalRecord) -> (r: Vec<i64>)
    ensures
        r@ == row(*eval),
{
    let mut r: Vec<i64> = Vec::new();
    let mut j: usize = 0;
    while j < eval.params.len()
        invariant
            j <= eval.params@.len(),
            r@.len() == j,
            forall|k: int| 0 <= k < j ==> r@[k] == (#[trigger] eval.params@[k]).value,
        decreases eval.params@.len() - j,
    {
        r.push(eval.params[j].value);
        j = j + 1;
    }
    let mut i: usize = 0;
    while i < eval.values.len()
        invariant
            i <= eval.values@.len(),
            r@.len() == eval.params@.len() + i,
            forall|k: int|
                0 <= k < eval.params@.len() ==> r@[k] == (#[trigger] eval.params@[k]).value,
            forall|k: int| 0 <= k < i ==> r@[eval.params@.len() + k] == #[trigger] eval.values@[k],
        decreases eval.values@.len() - i,
    {
        r.push(eval.values[i]);
        i = i + 1;
    }
    proof {
        let expected = row(*eval);
        assert(r@.len() == expected.len());
        assert forall|k: int| 0 <= k < r@.len() implies r@[k] == expected[k] by {
            if k >= eval.params@.len() {
                assert(r@[eval.params@.len() + (k - eval.params@.len())] == eval.values@[k
                    - eval.params@.len()]);
            }
        }
        assert(r@ =~= expected);
    }
    r
}

/// Builds the tables of `records` in one pass, given the keys of the
/// studies' groups.
pub fn build_tables(records: &Vec<Record>, keys: &KeyMap) -> (tables: Vec<Table>)
    ensures
        tables_view(tables@) == tabled(records@, records@.len() as int, keys@),
        distinct_tables(tables_view(tables@)),
{
    let mut tables: Vec<Table> = Vec::new();
    let mut i: usize = 0;
    assert(tables_view(tables@) =~= Seq::empty());
    while i < records.len()
        invariant
            i <= records@.len(),
            distinct_tables(tables_view(tables@)),
            tables_view(tables@) == tabled(records@, i as int, keys@),
        decreases records@.len() - i,
    {
        let ghost before = tables_view(tables@);
        match &records[i] {
            Record::Study(study) => {
                let name = keys.resolve(&study.id);
                if find_table(&tables, &name).is_none() {
                    let created = Table::new(name, study);
                    tables.push(created);
                    assert(tables_view(tables@) =~= before.push(created@));
                    proof {
                        let after = tables_view(tables@);
                        assert forall|a: int, b: int|
                            0 <= a < b < after.len() implies (#[trigger] after[a]).name != (
                        #[trigger] after[b]).name by {
                            assert(after[a] == before[a]);
                            if b < before.len() {
                                assert(after[b] == before[b]);
                            } else if before[a].name == created@.name {
                                lemma_table_found(before, created@.name, a);
                            }
                        }
                    }
                }
            },
            Record::Eval(eval) => {
                if eval.state.is_complete() {
                    let name = keys.resolve(&eval.study);
                    match find_table(&tables, &name) {
                        Some(k) => {
                            let cells = row_of(eval);
                            tables[k].rows.push(cells);
                            assert(tables@[k as int]@.rows =~= before[k as int].rows.push(cells@));
                            assert(tables_view(tables@) =~= before.update(
                                k as int,
                                before[k as int].with_row(cells@),
                            ));
                            proof {
                                let after = tables_view(tables@);
                                assert forall|a: int, b: int|
                                    0 <= a < b < after.len() implies (#[trigger] after[a]).name
                                    != (#[trigger] after[b]).name by {
                                    assert(after[a].name == before[a].name);
                                    assert(after[b].name == before[b].name);
                                }
                            }
                        },
                        None => {},
                    }
                }
            },
        }
        i = i + 1;
    }
    tables
}

/// The tables of `records`, given what the key script gave for each
/// study in order: the studies get their table names, then the records
/// are taken in, in order.
pub open spec fn converted(records: Seq<Record>, outcomes: Seq<Outcome>) -> Result<
    Seq<TableView>,
    ConvertError,
> {
    match key_mapping(records, outcomes) {
        Err(e) => Err(ConvertError::Key(e)),
        Ok(keys) => Ok(tabled(records, records.len() as int, keys)),
    }
}

impl ConvertCsvOpt {
    /// Makes the tables of `records`, given what the key script gave for
    /// each study in order.
    pub fn convert(&self, records: &Vec<Record>, outcomes: &Vec<Outcome>) -> (r: Result<
        Vec<Table>,
        ConvertError,
    >)
        ensures
            match r {
                Ok(tables) => converted(records@, outcomes@) == Ok::<Seq<TableView>, ConvertError>(
                    tables_view(tables@),
                ) && distinct_tables(tables_view(tables@)),
                Err(e) => converted(records@, outcomes@) == Err::<Seq<TableView>, ConvertError>(e),
            },
    {
        match build_id_mapping(records, outcomes) {
            Ok(keys) => Ok(build_tables(records, &keys)),
            Err(e) => Err(ConvertError::Key(e)),
        }
    }
}

} // verus!
