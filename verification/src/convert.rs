//! Conversion of records into other shapes.

use vstd::prelude::*;
use crate::keys::Outcome;
use crate::record::Record;
use self::csv::{
    converted, distinct_tables, tables_view, ConvertCsvOpt, ConvertError, Table, TableView,
};

pub mod csv;

verus! {

/// What to convert the records into.
#[derive(Debug)]
pub enum ConvertOpt {
    Csv(ConvertCsvOpt),
}

impl ConvertOpt {
    /// Converts the records, given what the key script gave for each
    /// study in order.
    pub fn convert(&self, records: &Vec<Record>, outcomes: &Vec<Outcome>) -> (r: Result<
        Vec<Table>,
        ConvertError,
    >)
        ensures
            match r {
                Ok(tables) => converted(records@, outcomes@) == Ok::<Seq<TableView>, ConvertError>(
                    tables_view(tables@),
                ) && distinct_tables(tables_view(tables@)),
                Err(e) => converted(records@, outcomes@) == Err::<Seq<TableView>, ConvertError>(e),
            },
    {
        match self {
            ConvertOpt::Csv(opt) => opt.convert(records, outcomes),
        }
    }
}

} // verus!
