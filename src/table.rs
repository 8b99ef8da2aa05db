//! The tabular ingestor: delimited text with a header row, held as the
//! column names and, for each record, its fields by position.
use crate::text::views;
use vstd::math::min;
use vstd::prelude::*;

verus! {

/// Largest number of data records a table may hold; sums over a column stay
/// within 128 bits below it.
pub const MAX_ROWS: usize = 1_000_000_000;

/// Header and records that the csv reader yields for some bytes, or `None`
/// where it reports an error: a function of the bytes alone.
pub uninterp spec fn csv_records_of(b: Seq<u8>) -> Option<(Seq<Seq<char>>, Seq<Seq<Seq<char>>>)>;

#[verifier::external_type_specification]
#[verifier::external_body]
pub struct ExCsvError(csv::Error);

pub open spec fn record_views(rows: Seq<Vec<String>>) -> Seq<Seq<Seq<char>>> {
    rows.map_values(|r: Vec<String>| views(r@))
}

/// Relies on the csv crate: `ReaderBuilder` with a header row and flexible
/// record lengths, then `Reader::headers` and `Reader::records`.  The header
/// and the records, or the failure, depend on the bytes alone.
#[verifier::external_body]
fn read_csv(bytes: &[u8]) -> (r: Result<(Vec<String>, Vec<Vec<String>>), csv::Error>)
    ensures
        match r {
            Ok((h, recs)) => csv_records_of(bytes@) == Some((views(h@), record_views(recs@))),
            Err(_) => csv_records_of(bytes@) is None,
        },
{
    let mut rdr = csv::ReaderBuilder::new().has_headers(true).flexible(true).from_reader(bytes);
    let header: Vec<String> = rdr.headers()?.iter().map(|h| h.to_string()).collect();
    let mut rows: Vec<Vec<String>> = Vec::new();
    for rec in rdr.records() {
        rows.push(rec?.iter().map(|f| f.to_string()).collect());
    }
    Ok((header, rows))
}

/// Why ingesting or scoring a batch failed.
#[derive(Debug, Clone, Copy, PartialEq, Eq, Structural)]
pub enum DriftError {
    /// The header or a record could not be read.
    Parse,
    /// More records than `MAX_ROWS`.
    TooManyRows,
    /// The input holds no data record.
    EmptyInput,
    /// No baseline exists for the project.
    MissingBaseline,
    /// Stored feature metadata is not in the expected shape.
    Serialization,
}

/// An ingested table: `rows[r][j]` is the field of record `r` under
/// `columns[j]`; a record with fewer fields leaves the trailing columns
/// absent, and fields past the header are ignored.
#[derive(Debug, Clone)]
pub struct Table {
    pub columns: Vec<String>,
    pub rows: Vec<Vec<String>>,
}

impl Table {
    pub open spec fn cols(&self) -> Seq<Seq<char>> {
        views(self.columns@)
    }

    pub open spec fn records(&self) -> Seq<Seq<Seq<char>>> {
        record_views(self.rows@)
    }

    pub open spec fn wf(&self) -> bool {
        self.rows.len() <= MAX_ROWS
    }
}

/// The field under the last of the first `j` columns named `name`.
pub open spec fn cell_at(cols: Seq<Seq<char>>, row: Seq<Seq<char>>, name: Seq<char>, j: int) -> Option<Seq<char>>
    decreases j,
{
    if j <= 0 || j > cols.len() || j > row.len() {
        None
    } else if cols[j - 1] == name {
        Some(row[j - 1])
    } else {
        cell_at(cols, row, name, j - 1)
    }
}

/// The field of a record under column `name`, if the record has one; where
/// the header repeats a name the last such field counts.
pub open spec fn cell_value(cols: Seq<Seq<char>>, row: Seq<Seq<char>>, name: Seq<char>) -> Option<Seq<char>> {
    cell_at(cols, row, name, min(cols.len() as int, row.len() as int))
}

/// The fields under column `name`, in record order, over the records that have one.
pub open spec fn column_cells(cols: Seq<Seq<char>>, rows: Seq<Seq<Seq<char>>>, name: Seq<char>) -> Seq<Seq<char>>
    decreases rows.len(),
{
    if rows.len() == 0 {
        Seq::empty()
    } else {
        let rest = column_cells(cols, rows.drop_last(), name);
        match cell_value(cols, rows.last(), name) {
            Some(v) => rest.push(v),
            None => rest,
        }
    }
}

/// Parses comma-delimited UTF-8 text whose first record is the header.
pub fn parse_csv(bytes: &[u8]) -> (r: Result<Table, DriftError>)
    ensures
        match csv_records_of(bytes@) {
            None => r == Err::<Table, DriftError>(DriftError::Parse),
            Some((h, recs)) => if recs.len() > MAX_ROWS {
                r == Err::<Table, DriftError>(DriftError::TooManyRows)
            } else {
                r matches Ok(t) && t.cols() == h && t.records() == recs && t.wf()
            },
        },
{
    match read_csv(bytes) {
        Err(_) => Err(DriftError::Parse),
        Ok((columns, rows)) => {
            if rows.len() > MAX_ROWS {
                Err(DriftError::TooManyRows)
            } else {
                Ok(Table { columns, rows })
            }
        },
    }
}

/// The field of `row` under column `name`.
pub fn cell<'a>(columns: &Vec<String>, row: &'a Vec<String>, name: &String) -> (r: Option<&'a String>)
    ensures
        match r {
            Some(v) => cell_value(views(columns@), views(row@), name@) == Some(v@),
            None => cell_value(views(columns@), views(row@), name@) is None,
        },
{
    let mut j: usize = if columns.len() < row.len() { columns.len() } else { row.len() };
    while j > 0
        invariant
            j <= columns.len(),
            j <= row.len(),
            cell_value(views(columns@), views(row@), name@) == cell_at(views(columns@), views(row@), name@, j as int),
        decreases j,
    {
        if columns[j - 1] == *name {
            return Some(&row[j - 1]);
        }
        j = j - 1;
    }
    None
}

/// The fields under column `name`, in record order.
pub fn column_values(table: &Table, name: &String) -> (r: Vec<String>)
    ensures
        views(r@) == column_cells(table.cols(), table.records(), name@),
{
    let mut out: Vec<String> = Vec::new();
    let mut i: usize = 0;
    while i < table.rows.len()
        invariant
            i <= table.rows.len(),
            views(out@) == column_cells(table.cols(), table.records().take(i as int), name@),
        decreases table.rows.len() - i,
    {
        proof {
            assert(table.records().take(i + 1).drop_last() == table.records().take(i as int));
            assert(table.records()[i as int] == views(table.rows@[i as int]@));
        }
        match cell(&table.columns, &table.rows[i], name) {
            Some(v) => {
                let ghost before = out@;
                out.push(v.clone());
                assert(views(out@) =~= views(before).push(v@));
            },
            None => {},
        }
        i = i + 1;
    }
    assert(table.records().take(i as int) == table.records());
    out
}

} // verus!
