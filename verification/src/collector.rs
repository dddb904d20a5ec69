//! The collector that boxes each cell: it keeps the cells of a result set as
//! values in one row-major buffer and cuts the buffer into rows at the end.

use crate::calendar::date_of_day;
use crate::columns::{
    column_info_of, column_models, copy_columns, Column, ColumnInfo, ColumnInfoModel, ColumnModel,
};
use crate::guid::{guid_text, guid_to_string};
use crate::ieee::{widen_single, widened};
use crate::sink::{DecodeError, Progress, RowSink};
use crate::types::{
    as_unsigned, date_text, datetime_text, decimal_text, decimal_to_string, micros_offset_to_iso,
    micros_to_iso, nanos_to_time_str, offset_text, time_text, unix_days_to_iso,
};
use crate::value::{value_models, JsValueWrapper, ValueModel};
use vstd::prelude::*;
use vstd::slice::slice_to_vec;
use vstd::string::StringExecFns;

verus! {

/// What a boxing collector has received.
pub struct CollectorModel {
    /// How far the events have come.
    pub progress: Progress,
    pub columns: Seq<ColumnModel>,
    /// The cells in the order of their arrival.
    pub cells: Seq<ValueModel>,
    pub rows_affected: i64,
}

impl CollectorModel {
    /// A collector that has received nothing.
    pub open spec fn start() -> CollectorModel {
        CollectorModel {
            progress: Progress::start(),
            columns: Seq::empty(),
            cells: Seq::empty(),
            rows_affected: 0,
        }
    }

    /// The state after a column list came: the list is taken where it was
    /// due, and the event noted as out of order where it was not.
    pub open spec fn with_metadata(self, columns: Seq<ColumnModel>) -> CollectorModel {
        CollectorModel {
            progress: self.progress.after_metadata(),
            columns: if self.progress.admits_metadata() {
                columns
            } else {
                self.columns
            },
            ..self
        }
    }

    /// The state after a cell came: the cell is put behind the others where
    /// it was due, and the event noted as out of order where it was not.
    pub open spec fn with_cell(self, cell: ValueModel) -> CollectorModel {
        CollectorModel {
            progress: self.progress.after_cell(),
            cells: if self.progress.admits_cell() {
                self.cells.push(cell)
            } else {
                self.cells
            },
            ..self
        }
    }

    /// The state after the end came with the number of rows affected: the
    /// number is kept, as a signed one, where the end was due.
    pub open spec fn with_done(self, rows: u64) -> CollectorModel {
        CollectorModel {
            progress: self.progress.after_done(),
            rows_affected: if self.progress.admits_done() {
                rows as i64
            } else {
                self.rows_affected
            },
            ..self
        }
    }

    /// What stands against handing the rows out: a fault in the order of the
    /// events, or cells that fill no whole number of rows.
    pub open spec fn outcome(self) -> Option<DecodeError> {
        match self.progress.fault() {
            Some(e) => Some(e),
            None => if self.is_whole() {
                None
            } else {
                Some(DecodeError::PartialRow)
            },
        }
    }

    /// Whether the cells fill a whole number of rows: with no columns there
    /// must be no cells, else their count is a multiple of that of the columns.
    pub open spec fn is_whole(self) -> bool {
        if self.columns.len() == 0 {
            self.cells.len() == 0
        } else {
            self.cells.len() % self.columns.len() == 0
        }
    }

    /// The number of rows that the cells fill.
    pub open spec fn row_count(self) -> nat {
        if self.columns.len() == 0 {
            0
        } else {
            self.cells.len() / self.columns.len()
        }
    }

    /// The place in the buffer of cell `c` of row `r`.
    pub open spec fn cell_index(self, r: int, c: int) -> int {
        r * self.columns.len() + c
    }

    /// The cells cut into rows: row `r` holds the cells of the buffer from
    /// the place of its first cell up to the place of the next row's first.
    pub open spec fn rows(self) -> Seq<Seq<ValueModel>> {
        Seq::new(
            self.row_count(),
            |r: int| self.cells.subrange(self.cell_index(r, 0), self.cell_index(r + 1, 0)),
        )
    }
}

/// The rows are as many as the cells fill, each has one cell for each
/// column, and cell `c` of row `r` is the cell at `cell_index(r, c)` of the
/// buffer: the cells keep the order in which they arrived, and none is left
/// over.
pub proof fn lemma_rows_are_the_cells(m: CollectorModel)
    requires
        m.is_whole(),
    ensures
        m.rows().len() == m.row_count(),
        m.row_count() * m.columns.len() == m.cells.len(),
        forall|r: int| 0 <= r < m.row_count() ==> (#[trigger] m.rows()[r]).len() == m.columns.len(),
        forall|r: int, c: int|
            0 <= r < m.row_count() && 0 <= c < m.columns.len() ==> 0 <= #[trigger] m.cell_index(
                r,
                c,
            ) < m.cells.len() && m.rows()[r][c] == m.cells[m.cell_index(r, c)],
{
    let width = m.columns.len();
    let count = m.row_count();
    if width > 0 {
        vstd::arithmetic::div_mod::lemma_fundamental_div_mod(
            m.cells.len() as int,
            width as int,
        );
        assert(count * width == width * count) by (nonlinear_arith);
    } else {
        assert(count * width == 0) by (nonlinear_arith)
            requires
                width == 0,
        ;
    }
    assert forall|r: int| 0 <= r < count implies 0 <= #[trigger] m.cell_index(r, 0)
        && m.cell_index(r + 1, 0) == m.cell_index(r, 0) + width && m.cell_index(r + 1, 0)
        <= m.cells.len() by {
        assert(0 <= r * width && (r + 1) * width == r * width + width && r * width + width
            <= count * width) by (nonlinear_arith)
            requires
                0 <= r < count,
        ;
    }
    assert forall|r: int| 0 <= r < count implies (#[trigger] m.rows()[r]).len() == width by {
        assert(0 <= m.cell_index(r, 0));
    }
    assert forall|r: int, c: int| 0 <= r < count && 0 <= c < width implies 0
        <= #[trigger] m.cell_index(r, c) < m.cells.len() && m.rows()[r][c]
        == m.cells[m.cell_index(r, c)] by {
        assert(0 <= m.cell_index(r, 0));
    }
}

/// A result set with its cells boxed.
#[derive(Debug, Clone, PartialEq, Eq)]
pub struct QueryResult {
    pub rows: Vec<Vec<JsValueWrapper>>,
    pub columns: Vec<ColumnInfo>,
    pub row_count: i64,
}

/// What a result set holds.
pub struct QueryResultModel {
    pub rows: Seq<Seq<ValueModel>>,
    pub columns: Seq<ColumnInfoModel>,
    pub row_count: i64,
}

impl View for QueryResult {
    type V = QueryResultModel;

    open spec fn view(&self) -> QueryResultModel {
        QueryResultModel {
            rows: self.rows@.map_values(|row: Vec<JsValueWrapper>| value_models(row@)),
            columns: self.columns@.map_values(|c: ColumnInfo| c@),
            row_count: self.row_count,
        }
    }
}

/// The collector that boxes each cell.
pub struct JsRowCollector {
    progress: Progress,
    columns: Vec<Column>,
    values: Vec<JsValueWrapper>,
    rows_affected: i64,
}

impl View for JsRowCollector {
    type V = CollectorModel;

    closed spec fn view(&self) -> CollectorModel {
        CollectorModel {
            progress: self.progress,
            columns: column_models(self.columns@),
            cells: value_models(self.values@),
            rows_affected: self.rows_affected,
        }
    }
}

impl JsRowCollector {
    /// A collector that has received nothing.
    pub fn new() -> (c: JsRowCollector)
        ensures
            c@ == CollectorModel::start(),
    {
        let c = JsRowCollector {
            progress: Progress::new(),
            columns: Vec::new(),
            values: Vec::new(),
            rows_affected: 0,
        };
        assert(c@.columns =~= Seq::empty());
        assert(c@.cells =~= Seq::empty());
        c
    }

    fn push_value(&mut self, value: JsValueWrapper)
        ensures
            final(self)@ == old(self)@.with_cell(value@),
    {
        if self.progress.note_cell() {
            self.values.push(value);
            assert(value_models(self.values@) =~= value_models(old(self).values@).push(value@));
        }
    }

    /// The number of rows affected that `on_done` reported, zero before it.
    pub fn rows_affected(&self) -> (n: i64)
        ensures
            n == self@.rows_affected,
    {
        self.rows_affected
    }

    /// The reports of the columns received.
    fn column_infos(&self) -> (infos: Vec<ColumnInfo>)
        ensures
            infos@.map_values(|c: ColumnInfo| c@) == self@.columns.map_values(
                |c: ColumnModel| column_info_of(c),
            ),
    {
        let mut infos: Vec<ColumnInfo> = Vec::new();
        let mut i: usize = 0;
        while i < self.columns.len()
            invariant
                i <= self.columns@.len(),
                infos@.len() == i,
                forall|k: int|
                    0 <= k < i ==> (#[trigger] infos@[k])@ == column_info_of(self.columns@[k]@),
            decreases self.columns@.len() - i,
        {
            infos.push(ColumnInfo::of(&self.columns[i]));
            i = i + 1;
        }
        assert(infos@.map_values(|c: ColumnInfo| c@) =~= self@.columns.map_values(
            |c: ColumnModel| column_info_of(c),
        ));
        infos
    }

    /// Moves the cells of one row out of the buffer, leaving nulls behind.
    fn take_row(&mut self, base: usize, width: usize) -> (row: Vec<JsValueWrapper>)
        requires
            base + width <= old(self).values@.len(),
        ensures
            value_models(row@) == old(self)@.cells.subrange(base as int, base + width),
            final(self).values@.len() == old(self).values@.len(),
            forall|k: int|
                0 <= k < old(self).values@.len() && !(base <= k < base + width)
                    ==> final(self).values@[k] == old(self).values@[k],
            final(self).columns == old(self).columns,
            final(self).progress == old(self).progress,
            final(self).rows_affected == old(self).rows_affected,
    {
        let mut row: Vec<JsValueWrapper> = Vec::new();
        let mut c: usize = 0;
        while c < width
            invariant
                c <= width,
                base + width <= self.values.len(),
                self.values@.len() == old(self).values@.len(),
                row@.len() == c,
                forall|j: int| 0 <= j < c ==> #[trigger] row@[j] == old(self).values@[base + j],
                forall|k: int|
                    0 <= k < self.values@.len() && !(base <= k < base + c) ==> self.values@[k]
                        == old(self).values@[k],
                self.columns == old(self).columns,
                self.progress == old(self).progress,
                self.rows_affected == old(self).rows_affected,
            decreases width - c,
        {
            let mut cell = JsValueWrapper::Null;
            let at = base + c;
            core::mem::swap(&mut self.values[at], &mut cell);
            row.push(cell);
            c = c + 1;
        }
        assert(value_models(row@) =~= old(self)@.cells.subrange(base as int, base + width));
        row
    }

    /// Cuts the cells into rows and hands the result set out. Each cell is
    /// moved, not copied, into its row.
    ///
    /// Fails if no column list was received, if an event came out of order,
    /// or if the cells do not fill a whole number of rows; no cell is dropped
    /// silently.
    pub fn into_query_result(self) -> (r: Result<QueryResult, DecodeError>)
        ensures
            match r {
                Ok(q) => self@.outcome() is None && q@ == (QueryResultModel {
                    rows: self@.rows(),
                    columns: self@.columns.map_values(|c: ColumnModel| column_info_of(c)),
                    row_count: self@.row_count() as i64,
                }),
                Err(e) => self@.outcome() == Some(e),
            },
    {
        let mut this = self;
        match this.progress.check() {
            Some(e) => {
                return Err(e);
            },
            None => {},
        }
        let width = this.columns.len();
        let total = this.values.len();
        if width == 0 {
            if total != 0 {
                return Err(DecodeError::PartialRow);
            }
        } else if total % width != 0 {
            return Err(DecodeError::PartialRow);
        }
        let num_rows: usize = if width > 0 {
            total / width
        } else {
            0
        };
        let columns = this.column_infos();
        proof {
            if width > 0 {
                vstd::arithmetic::div_mod::lemma_fundamental_div_mod(total as int, width as int);
            }
        }
        let mut rows: Vec<Vec<JsValueWrapper>> = Vec::new();
        let mut r: usize = 0;
        let mut base: usize = 0;
        while r < num_rows
            invariant
                r <= num_rows,
                width > 0 || num_rows == 0,
                width * num_rows == total,
                base == r * width,
                this.values@.len() == total,
                self.values@.len() == total,
                this.columns == self.columns,
                rows@.len() == r,
                forall|i: int|
                    0 <= i < r ==> value_models((#[trigger] rows@[i])@) == self@.cells.subrange(
                        i * width,
                        i * width + width,
                    ),
                forall|k: int| base <= k < total ==> this.values@[k] == self.values@[k],
            decreases num_rows - r,
        {
            proof {
                assert((r + 1) * width == r * width + width) by (nonlinear_arith);
                vstd::arithmetic::mul::lemma_mul_inequality(
                    (r + 1) as int,
                    num_rows as int,
                    width as int,
                );
                assert(width * num_rows == num_rows * width) by (nonlinear_arith);
            }
            let ghost before = this@.cells;
            let row = this.take_row(base, width);
            proof {
                assert(before.subrange(base as int, base + width) =~= self@.cells.subrange(
                    base as int,
                    base + width,
                ));
            }
            rows.push(row);
            r = r + 1;
            base = base + width;
        }
        let q = QueryResult { rows, columns, row_count: num_rows as i64 };
        proof {
            assert(self@.row_count() == num_rows) by {
                if width > 0 {
                    vstd::arithmetic::div_mod::lemma_div_by_multiple(
                        num_rows as int,
                        width as int,
                    );
                    assert(width * num_rows == num_rows * width) by (nonlinear_arith);
                }
            }
            assert forall|i: int| 0 <= i < num_rows implies #[trigger] q@.rows[i]
                == self@.rows()[i] by {
                assert((i + 1) * width == i * width + width) by (nonlinear_arith);
            }
            assert(q@.rows =~= self@.rows());
        }
        Ok(q)
    }
}

impl Default for JsRowCollector {
    fn default() -> (c: JsRowCollector)
        ensures
            c@ == CollectorModel::start(),
    {
        JsRowCollector::new()
    }
}

impl RowSink for JsRowCollector {
    /// A boxing collector relies on nothing.
    open spec fn well_formed(&self) -> bool {
        true
    }

    open spec fn progress(&self) -> Progress {
        self@.progress
    }

    /// Takes the column list, if it is the first and the end has not come.
    fn on_metadata(&mut self, columns: &[Column])
        ensures
            final(self)@ == old(self)@.with_metadata(column_models(columns@)),
    {
        if self.progress.note_metadata() {
            self.columns = copy_columns(columns);
        }
    }

    fn write_null(&mut self, col: usize)
        ensures
            final(self)@ == old(self)@.with_cell(ValueModel::Null),
    {
        self.push_value(JsValueWrapper::Null);
    }

    fn write_bool(&mut self, col: usize, v: bool)
        ensures
            final(self)@ == old(self)@.with_cell(ValueModel::Bool(v)),
    {
        self.push_value(JsValueWrapper::Bool(v));
    }

    fn write_u8(&mut self, col: usize, v: u8)
        ensures
            final(self)@ == old(self)@.with_cell(ValueModel::Int64(v as i64)),
    {
        self.push_value(JsValueWrapper::I64(v as i64));
    }

    fn write_i16(&mut self, col: usize, v: i16)
        ensures
            final(self)@ == old(self)@.with_cell(ValueModel::Int64(v as i64)),
    {
        self.push_value(JsValueWrapper::I64(v as i64));
    }

    fn write_i32(&mut self, col: usize, v: i32)
        ensures
            final(self)@ == old(self)@.with_cell(ValueModel::Int64(v as i64)),
    {
        self.push_value(JsValueWrapper::I64(v as i64));
    }

    fn write_i64(&mut self, col: usize, v: i64)
        ensures
            final(self)@ == old(self)@.with_cell(ValueModel::Int64(v)),
    {
        self.push_value(JsValueWrapper::I64(v));
    }

    /// A single is kept as the double of the same value.
    fn write_f32(&mut self, col: usize, bits: u32)
        ensures
            final(self)@ == old(self)@.with_cell(ValueModel::Float64(widened(bits))),
    {
        self.push_value(JsValueWrapper::F64(widen_single(bits)));
    }

    fn write_f64(&mut self, col: usize, bits: u64)
        ensures
            final(self)@ == old(self)@.with_cell(ValueModel::Float64(bits)),
    {
        self.push_value(JsValueWrapper::F64(bits));
    }

    fn write_str(&mut self, col: usize, v: &str)
        ensures
            final(self)@ == old(self)@.with_cell(ValueModel::Str(v@)),
    {
        self.push_value(JsValueWrapper::Str(String::from_str(v)));
    }

    fn write_bytes(&mut self, col: usize, v: &[u8])
        ensures
            final(self)@ == old(self)@.with_cell(ValueModel::Bytes(v@)),
    {
        self.push_value(JsValueWrapper::Bytes(slice_to_vec(v)));
    }

    /// A GUID is kept as its canonical text.
    fn write_guid(&mut self, col: usize, v: &[u8; 16])
        ensures
            final(self)@ == old(self)@.with_cell(ValueModel::Str(guid_text(v@))),
    {
        self.push_value(JsValueWrapper::Str(guid_to_string(v)));
    }

    /// A decimal is kept as text, so that no digit is lost.
    fn write_decimal(&mut self, col: usize, value: i128, precision: u8, scale: u8)
        ensures
            final(self)@ == old(self)@.with_cell(
                ValueModel::Str(decimal_text(value as int, scale as nat)),
            ),
    {
        self.push_value(JsValueWrapper::Str(decimal_to_string(value, scale)));
    }

    fn write_date(&mut self, col: usize, unix_days: i32)
        ensures
            final(self)@ == old(self)@.with_cell(
                ValueModel::Str(date_text(date_of_day(unix_days as int))),
            ),
    {
        self.push_value(JsValueWrapper::Str(unix_days_to_iso(unix_days)));
    }

    /// The nanoseconds are read as an unsigned number.
    fn write_time(&mut self, col: usize, nanos: i64)
        ensures
            final(self)@ == old(self)@.with_cell(
                ValueModel::Str(time_text(as_unsigned(nanos) as nat)),
            ),
    {
        self.push_value(JsValueWrapper::Str(nanos_to_time_str(nanos as u64)));
    }

    fn write_datetime(&mut self, col: usize, micros: i64)
        ensures
            final(self)@ == old(self)@.with_cell(ValueModel::Str(datetime_text(micros as int))),
    {
        self.push_value(JsValueWrapper::Str(micros_to_iso(micros)));
    }

    fn write_datetimeoffset(&mut self, col: usize, micros: i64, offset_minutes: i16)
        ensures
            final(self)@ == old(self)@.with_cell(
                ValueModel::Str(datetime_text(micros as int) + offset_text(offset_minutes as int)),
            ),
    {
        self.push_value(JsValueWrapper::Str(micros_offset_to_iso(micros, offset_minutes)));
    }

    /// Keeps the number of rows affected, as a signed number.
    fn on_done(&mut self, rows: u64)
        ensures
            final(self)@ == old(self)@.with_done(rows),
    {
        if self.progress.note_done() {
            self.rows_affected = rows as i64;
        }
    }
}

} // verus!
