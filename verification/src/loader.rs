//! Loading a graph from comma-separated text.
use crate::graph::{rows, texts, EdgeWeight, Graph, GraphModel, Record, RecordModel};
use crate::text::{parse_row, row_record};
use vstd::prelude::*;

verus! {

/// The error with which the `csv` crate refuses data.
#[verifier::external_type_specification]
#[verifier::external_body]
pub struct ExCsvError(csv::Error);

/// The records that the `csv` crate reads from `data`, each as the texts of its fields,
/// the header row left out; `None` where it refuses the data.
pub uninterp spec fn csv_records(data: Seq<u8>) -> Option<Seq<Seq<Seq<char>>>>;

/// The texts of the fields of a table of strings.
pub open spec fn table_texts(table: Seq<Vec<String>>) -> Seq<Seq<Seq<char>>> {
    Seq::new(table.len(), |i: int| texts(table[i]@))
}

/// Reads `data` with a reader of the `csv` crate, built by `csv::ReaderBuilder` with
/// headers switched on, and collects what `Reader::records` yields: every record after the
/// header row, as the strings of its fields. The first record that the reader refuses ends
/// the reading with its error. Nothing is claimed of what the records are but that the
/// data decide them.
#[verifier::external_body]
fn read_records(data: &[u8]) -> (r: Result<Vec<Vec<String>>, csv::Error>)
    ensures
        match r {
            Ok(table) => csv_records(data@) == Some(table_texts(table@)),
            Err(_) => csv_records(data@) is None,
        },
{
    let mut reader = csv::ReaderBuilder::new().has_headers(true).from_reader(data);
    let mut table = Vec::new();
    for record in reader.records() {
        let record = record?;
        table.push(record.iter().map(|field| field.to_string()).collect());
    }
    Ok(table)
}

/// Why a graph could not be loaded.
#[derive(Debug, Clone, Copy, PartialEq, Eq)]
pub enum LoadError {
    /// The data are not comma-separated records that can be read.
    Malformed,
}

impl LoadError {
    /// What went wrong, in words.
    pub fn describe(&self) -> (text: String)
        ensures
            text@ == "the data cannot be read as comma-separated records"@,
    {
        "the data cannot be read as comma-separated records".to_owned()
    }
}

/// The records that a table of fields writes, row by row.
pub open spec fn table_records(table: Seq<Seq<Seq<char>>>) -> Seq<RecordModel> {
    Seq::new(table.len(), |i: int| row_record(table[i]))
}

/// Reads the record of every row of a table.
pub fn parse_table(table: &Vec<Vec<String>>) -> (records: Vec<Record>)
    ensures
        rows(records@) == table_records(table_texts(table@)),
{
    let mut records: Vec<Record> = Vec::new();
    let mut i: usize = 0;
    while i < table.len()
        invariant
            i <= table.len(),
            records.len() == i,
            forall|j: int| 0 <= j < i ==> (#[trigger] records[j])@ == row_record(texts(table[j]@)),
        decreases table.len() - i,
    {
        records.push(parse_row(&table[i]));
        i += 1;
    }
    assert(rows(records@) =~= table_records(table_texts(table@)));
    records
}

impl Graph {
    /// Builds the graph of a table of fields: each row is read as a record of an entity,
    /// its categories and its attribute, and the graph is built from the records.
    pub fn from_table(table: &Vec<Vec<String>>, policy: EdgeWeight) -> (g: Graph)
        ensures
            g.wf(),
            g@ == GraphModel::built(table_records(table_texts(table@)), policy),
    {
        let records = parse_table(table);
        Graph::build(&records, policy)
    }

    /// Loads a graph from comma-separated text with a header row and the columns entity,
    /// categories and attribute. Fails if and only if the text cannot be read as such
    /// records.
    pub fn load_from_csv(data: &[u8], policy: EdgeWeight) -> (r: Result<Graph, LoadError>)
        ensures
            match r {
                Ok(g) => csv_records(data@) matches Some(table) && g.wf() && g@
                    == GraphModel::built(table_records(table), policy),
                Err(e) => csv_records(data@) is None && e == LoadError::Malformed,
            },
    {
        match read_records(data) {
            Ok(table) => Ok(Graph::from_table(&table, policy)),
            Err(_) => Err(LoadError::Malformed),
        }
    }
}

} // verus!
