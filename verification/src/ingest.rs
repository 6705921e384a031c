//! Bulk ingestion of columnar batches of edges.

use crate::error::GraphError;
use crate::model::GraphModel;
use crate::topology::GraphIndex;
use vstd::prelude::*;

verus! {

/// The number of columns that a batch must have.
pub const BATCH_COLUMNS: usize = 5;

/// One column of a batch. Only the two kinds that the edge schema uses hold
/// their values; of any other kind only the length is kept.
#[derive(Debug, Clone)]
pub enum Column {
    /// UTF-8 strings, `None` where the field is null.
    Utf8(Vec<Option<String>>),
    /// Timestamps in microseconds, `None` where the field is null.
    TimestampMicros(Vec<Option<i64>>),
    /// A column of another type, with its length.
    Other(usize),
}

/// A columnar record set. The edge schema fixes its first five columns:
/// `source_id`, `target_id` and `edge_type` are strings without nulls,
/// `valid_from` and `valid_to` are timestamps that may be null. Each row is
/// one logical edge.
#[derive(Debug, Clone)]
pub struct ColumnarBatch {
    pub columns: Vec<Column>,
}

/// One row of a batch: one logical edge.
pub struct EdgeRow {
    pub source: Seq<char>,
    pub target: Seq<char>,
    pub label: Seq<char>,
    pub valid_from: Option<i64>,
    pub valid_to: Option<i64>,
}

/// The number of fields of a column.
pub open spec fn column_len(c: Column) -> nat {
    match c {
        Column::Utf8(v) => v@.len(),
        Column::TimestampMicros(v) => v@.len(),
        Column::Other(n) => n as nat,
    }
}

/// The string in a field; `None` where the field is null or the column
/// holds no strings.
pub open spec fn text_at(c: Column, row: int) -> Option<Seq<char>> {
    match c {
        Column::Utf8(v) => match v@[row] {
            Some(s) => Some(s@),
            None => None,
        },
        _ => None,
    }
}

/// The timestamp in a field; `None` where the field is null or the column
/// holds no timestamps.
pub open spec fn time_at(c: Column, row: int) -> Option<i64> {
    match c {
        Column::TimestampMicros(v) => v@[row],
        _ => None,
    }
}

/// Whether column `c` breaks the schema: it is missing, of the wrong type,
/// or not as long as the first column.
pub open spec fn column_defect(cols: Seq<Column>, c: int) -> bool {
    ||| c >= cols.len()
    ||| (c < 3 && !(cols[c] is Utf8))
    ||| (c >= 3 && !(cols[c] is TimestampMicros))
    ||| column_len(cols[c]) != column_len(cols[0])
}

/// The first of the five columns that breaks the schema.
pub open spec fn first_defect(cols: Seq<Column>) -> Option<int> {
    if column_defect(cols, 0) {
        Some(0)
    } else if column_defect(cols, 1) {
        Some(1)
    } else if column_defect(cols, 2) {
        Some(2)
    } else if column_defect(cols, 3) {
        Some(3)
    } else if column_defect(cols, 4) {
        Some(4)
    } else {
        None
    }
}

/// The first of the three string columns that is null in `row`.
pub open spec fn null_in_row(cols: Seq<Column>, row: int) -> Option<int> {
    if text_at(cols[0], row) is None {
        Some(0)
    } else if text_at(cols[1], row) is None {
        Some(1)
    } else if text_at(cols[2], row) is None {
        Some(2)
    } else {
        None
    }
}

/// The first null in a string column, among the first `upto` rows, as row
/// and column.
pub open spec fn first_null(cols: Seq<Column>, upto: int) -> Option<(int, int)>
    decreases upto,
{
    if upto <= 0 {
        None
    } else {
        match first_null(cols, upto - 1) {
            Some(at) => Some(at),
            None => match null_in_row(cols, upto - 1) {
                Some(c) => Some((upto - 1, c)),
                None => None,
            },
        }
    }
}

/// Why a batch is refused, if it is: the first column that breaks the
/// schema, or else the first null in a string column.
pub open spec fn batch_error(cols: Seq<Column>) -> Option<GraphError> {
    match first_defect(cols) {
        Some(c) => Some(GraphError::DecodeError { row: None, column: Some(c as usize) }),
        None => match first_null(cols, column_len(cols[0]) as int) {
            Some((r, c)) => Some(
                GraphError::DecodeError { row: Some(r as usize), column: Some(c as usize) },
            ),
            None => None,
        },
    }
}

/// Row `row` of a batch that is not refused.
pub open spec fn row_at(cols: Seq<Column>, row: int) -> EdgeRow {
    EdgeRow {
        source: text_at(cols[0], row).unwrap(),
        target: text_at(cols[1], row).unwrap(),
        label: text_at(cols[2], row).unwrap(),
        valid_from: time_at(cols[3], row),
        valid_to: time_at(cols[4], row),
    }
}

/// The rows of a batch that is not refused.
pub open spec fn batch_rows(cols: Seq<Column>) -> Seq<EdgeRow> {
    Seq::new(column_len(cols[0]), |i: int| row_at(cols, i))
}

impl GraphModel {
    /// What ingesting `rows` in order makes of the model, and the failure
    /// that stopped it, if one did: then the rows before the failing one
    /// have been added, and no other.
    pub open spec fn ingest(self, rows: Seq<EdgeRow>) -> (GraphModel, Option<GraphError>)
        decreases rows.len(),
    {
        if rows.len() == 0 {
            (self, None)
        } else {
            let row = rows.first();
            match self.add_edge_error(row.source, row.target, row.label) {
                Some(e) => (self, Some(e)),
                None => self.with_edge(
                    row.source,
                    row.target,
                    row.label,
                    row.valid_from,
                    row.valid_to,
                ).ingest(rows.drop_first()),
            }
        }
    }

    /// What ingesting the items of a stream in order makes of the model,
    /// and the failure that stopped it, if one did. An item is a batch, or
    /// the text that says why the stream could not be read further, which
    /// stops the ingestion as an `IoError`. A batch that breaks the schema
    /// stops it before any of its rows is added.
    pub open spec fn ingest_stream(self, items: Seq<Result<ColumnarBatch, String>>) -> (
        GraphModel,
        Option<GraphError>,
    )
        decreases items.len(),
    {
        if items.len() == 0 {
            (self, None)
        } else {
            match items.first() {
                Err(text) => (self, Some(GraphError::IoError(text))),
                Ok(batch) => match batch_error(batch.columns@) {
                    Some(e) => (self, Some(e)),
                    None => match self.ingest(batch_rows(batch.columns@)).1 {
                        Some(e) => (self.ingest(batch_rows(batch.columns@)).0, Some(e)),
                        None => self.ingest(batch_rows(batch.columns@)).0.ingest_stream(
                            items.drop_first(),
                        ),
                    },
                },
            }
        }
    }

    /// Ingesting one row is adding one edge.
    pub proof fn lemma_ingest_one(self, row: EdgeRow)
        requires
            self.add_edge_error(row.source, row.target, row.label) is None,
        ensures
            self.ingest(seq![row]) == (
                self.with_edge(row.source, row.target, row.label, row.valid_from, row.valid_to),
                None::<GraphError>,
            ),
    {
        let rows = seq![row];
        assert(rows.first() == row);
        assert(rows.drop_first().len() == 0);
        reveal_with_fuel(GraphModel::ingest, 2);
    }
}

/// The length of a column.
pub fn column_length(c: &Column) -> (n: usize)
    ensures
        n == column_len(*c),
{
    match c {
        Column::Utf8(v) => v.len(),
        Column::TimestampMicros(v) => v.len(),
        Column::Other(n) => *n,
    }
}

impl ColumnarBatch {
    /// Holds the batch to the edge schema: `Ok` with the number of rows, or
    /// the first defect.
    pub fn validate(&self) -> (r: Result<usize, GraphError>)
        ensures
            match r {
                Ok(n) => batch_error(self.columns@) is None && n == column_len(self.columns@[0]),
                Err(e) => batch_error(self.columns@) == Some(e),
            },
    {
        let ghost cols = self.columns@;
        let mut c: usize = 0;
        while c < BATCH_COLUMNS
            invariant
                c <= BATCH_COLUMNS,
                cols == self.columns@,
                forall|j: int| 0 <= j < c ==> !column_defect(cols, j),
            decreases BATCH_COLUMNS - c,
        {
            if c >= self.columns.len() {
                return Err(GraphError::DecodeError { row: None, column: Some(c) });
            }
            let right_type = match &self.columns[c] {
                Column::Utf8(_) => c < 3,
                Column::TimestampMicros(_) => c >= 3,
                Column::Other(_) => false,
            };
            if !right_type || column_length(&self.columns[c]) != column_length(&self.columns[0]) {
                return Err(GraphError::DecodeError { row: None, column: Some(c) });
            }
            c += 1;
        }
        proof {
            assert(!column_defect(cols, 0));
            assert(!column_defect(cols, 1));
            assert(!column_defect(cols, 2));
            assert(!column_defect(cols, 3));
            assert(!column_defect(cols, 4));
        }
        let n = column_length(&self.columns[0]);
        let mut row: usize = 0;
        while row < n
            invariant
                row <= n,
                cols == self.columns@,
                cols.len() >= 3,
                cols[0] is Utf8,
                cols[1] is Utf8,
                cols[2] is Utf8,
                n == column_len(cols[0]),
                n == column_len(cols[1]),
                n == column_len(cols[2]),
                first_defect(cols) is None,
                first_null(cols, row as int) is None,
            decreases n - row,
        {
            let mut k: usize = 0;
            while k < 3
                invariant
                    k <= 3,
                    row < n,
                    cols == self.columns@,
                    cols.len() >= 3,
                    cols[0] is Utf8,
                    cols[1] is Utf8,
                    cols[2] is Utf8,
                    n == column_len(cols[0]),
                    n == column_len(cols[1]),
                    n == column_len(cols[2]),
                    first_defect(cols) is None,
                    first_null(cols, row as int) is None,
                    forall|j: int| 0 <= j < k ==> text_at(#[trigger] cols[j], row as int) is Some,
                decreases 3 - k,
            {
                let is_null = match &self.columns[k] {
                    Column::Utf8(v) => v[row].is_none(),
                    _ => true,
                };
                if is_null {
                    proof {
                        assert(forall|j: int| 0 <= j < k ==> text_at(#[trigger] cols[j], row as int) is Some);
                        assert(text_at(cols[k as int], row as int) is None);
                        assert(null_in_row(cols, row as int) == Some(k as int));
                        lemma_first_null_found(cols, n as int, row as int);
                    }
                    return Err(GraphError::DecodeError { row: Some(row), column: Some(k) });
                }
                k += 1;
            }
            proof {
                assert(text_at(cols[0], row as int) is Some);
                assert(text_at(cols[1], row as int) is Some);
                assert(text_at(cols[2], row as int) is Some);
                assert(null_in_row(cols, row as int) is None);
            }
            row += 1;
        }
        Ok(n)
    }
}

impl GraphIndex {
    /// Ingests a columnar batch: one `add_edge` for each row, in order.
    /// Nothing is deduplicated; compaction does that. A batch that breaks
    /// the schema is refused as a whole and changes nothing. Where the nodes
    /// or edge types that a row needs do not fit, the rows before it have
    /// been added, and that row's failure is returned.
    pub fn add_arrow_batch(&mut self, batch: &ColumnarBatch) -> (r: Result<(), GraphError>)
        requires
            old(self).wf(),
        ensures
            final(self).wf(),
            match batch_error(batch.columns@) {
                Some(e) => r == Err::<(), GraphError>(e) && final(self)@ == old(self)@,
                None => {
                    &&& final(self)@ == old(self)@.ingest(batch_rows(batch.columns@)).0
                    &&& match old(self)@.ingest(batch_rows(batch.columns@)).1 {
                        Some(e) => r == Err::<(), GraphError>(e),
                        None => r is Ok,
                    }
                },
            },
    {
        let n = match batch.validate() {
            Ok(n) => n,
            Err(e) => {
                return Err(e);
            },
        };
        let ghost cols = batch.columns@;
        let ghost rows = batch_rows(cols);
        let ghost start = self@;
        proof {
            assert(first_defect(cols) is None);
            assert(!column_defect(cols, 0));
            assert(!column_defect(cols, 1));
            assert(!column_defect(cols, 2));
            assert(!column_defect(cols, 3));
            assert(!column_defect(cols, 4));
            assert(rows.skip(0) =~= rows);
        }
        let mut i: usize = 0;
        while i < n
            invariant
                i <= n,
                self.wf(),
                cols == batch.columns@,
                rows == batch_rows(cols),
                n == column_len(cols[0]),
                cols.len() >= 5,
                cols[0] is Utf8,
                cols[1] is Utf8,
                cols[2] is Utf8,
                cols[3] is TimestampMicros,
                cols[4] is TimestampMicros,
                forall|c: int| 0 <= c < 5 ==> column_len(#[trigger] cols[c]) == n,
                first_null(cols, n as int) is None,
                batch_error(cols) is None,
                start == old(self)@,
                start.ingest(rows) == self@.ingest(rows.skip(i as int)),
            decreases n - i,
        {
            proof {
                lemma_no_null(cols, n as int, i as int);
                assert(rows.skip(i as int).first() == row_at(cols, i as int));
                assert(rows.skip(i as int).drop_first() =~= rows.skip(i + 1));
            }
            let source = match &batch.columns[0] {
                Column::Utf8(v) => v[i].as_ref(),
                _ => None,
            };
            let target = match &batch.columns[1] {
                Column::Utf8(v) => v[i].as_ref(),
                _ => None,
            };
            let label = match &batch.columns[2] {
                Column::Utf8(v) => v[i].as_ref(),
                _ => None,
            };
            let valid_from = match &batch.columns[3] {
                Column::TimestampMicros(v) => v[i],
                _ => None,
            };
            let valid_to = match &batch.columns[4] {
                Column::TimestampMicros(v) => v[i],
                _ => None,
            };
            let ghost here = self@;
            let ghost rest = rows.skip(i as int);
            match (source, target, label) {
                (Some(s), Some(t), Some(l)) => {
                    proof {
                        assert(text_at(cols[0], i as int) == Some(s@));
                        assert(text_at(cols[1], i as int) == Some(t@));
                        assert(text_at(cols[2], i as int) == Some(l@));
                        assert(rest.first().source == s@);
                        assert(rest.first().target == t@);
                        assert(rest.first().label == l@);
                        assert(rest.first().valid_from == valid_from);
                        assert(rest.first().valid_to == valid_to);
                        assert(rest.len() > 0);
                    }
                    match self.add_edge(s.as_str(), t.as_str(), l.as_str(), valid_from, valid_to) {
                        Ok(()) => {
                            proof {
                                assert(here.ingest(rest) == self@.ingest(rest.drop_first()));
                            }
                        },
                        Err(e) => {
                            proof {
                                assert(here.ingest(rest) == (here, Some(e)));
                            }
                            return Err(e);
                        },
                    }
                },
                _ => {
                    proof {
                        assert(false);
                    }
                },
            }
            i += 1;
        }
        proof {
            assert(rows.skip(n as int).len() == 0);
        }
        Ok(())
    }
}

/// The first row with a null is where `first_null` points.
pub proof fn lemma_first_null_found(cols: Seq<Column>, upto: int, row: int)
    requires
        0 <= row < upto,
        first_null(cols, row) is None,
        null_in_row(cols, row) is Some,
    ensures
        first_null(cols, upto) == Some((row, null_in_row(cols, row).unwrap())),
    decreases upto,
{
    if row < upto - 1 {
        lemma_first_null_found(cols, upto - 1, row);
    }
}

/// Where a batch has no null in its string columns, no row has one.
pub proof fn lemma_no_null(cols: Seq<Column>, upto: int, row: int)
    requires
        first_null(cols, upto) is None,
        0 <= row < upto,
    ensures
        null_in_row(cols, row) is None,
    decreases upto,
{
    if row < upto - 1 {
        lemma_no_null(cols, upto - 1, row);
    }
}

} // verus!
