//! The collector that writes a result set as one binary buffer.
//!
//! Cells are encoded as they arrive, a tag byte and a payload each. Text is
//! not written into the cell: each distinct text is kept once in a string
//! table, and the cell holds the text's index in that table. At the end the
//! header, the column directory, the string table and the cells are put
//! together; the header's count of rows is the number of rows that the cells
//! fill. All integers are little-endian.

use crate::calendar::date_of_day;
use crate::columns::{col_type_id, column_models, copy_columns, type_id, Column, ColumnModel};
use crate::guid::{guid_text, guid_to_string};
use crate::ieee::{
    double_bits_of_int, double_is_int, double_of_int, fits_double, lemma_double_of_int_exact,
    widen_single, widened, EXACT_INT_LIMIT,
};
use crate::sink::{DecodeError, Progress, RowSink};
use crate::types::{
    as_unsigned, date_text, datetime_text, decimal_text, decimal_to_string, micros_offset_to_iso,
    micros_to_iso, nanos_to_time_str, offset_text, time_text, unix_days_to_iso,
};
use vstd::hash_map::StringHashMap;
use vstd::prelude::*;
use vstd::string::StringExecFns;
use vstd::utf8::encode_utf8;

verus! {

/// The tag of a cell without a value.
pub const TAG_NULL: u8 = 0;

/// The tag of the boolean `false`.
pub const TAG_FALSE: u8 = 1;

/// The tag of the boolean `true`.
pub const TAG_TRUE: u8 = 2;

/// The tag of a number: the eight bytes of a double follow.
pub const TAG_F64: u8 = 3;

/// The tag of an integer too large for a double: its eight bytes follow.
pub const TAG_BIGINT: u8 = 4;

/// The tag of a text: the four bytes of its index in the string table follow.
pub const TAG_STRING_REF: u8 = 5;

/// The tag of a byte string: four bytes of length and the bytes follow.
pub const TAG_BYTES: u8 = 6;

/// The `width` low bytes of `x`, the lowest first.
pub open spec fn le_bytes(x: nat, width: nat) -> Seq<u8>
    decreases width,
{
    if width == 0 {
        Seq::<u8>::empty()
    } else {
        seq![(x % 256) as u8] + le_bytes(x / 256, (width - 1) as nat)
    }
}

/// The number that bytes write, the lowest byte first.
pub open spec fn le_value(bytes: Seq<u8>) -> nat
    decreases bytes.len(),
{
    if bytes.len() == 0 {
        0
    } else {
        bytes[0] as nat + 256 * le_value(bytes.drop_first())
    }
}

/// `256` to the power `width`: the count of numbers that `width` bytes write.
pub open spec fn byte_range(width: nat) -> nat
    decreases width,
{
    if width == 0 {
        1
    } else {
        256 * byte_range((width - 1) as nat)
    }
}

/// The unsigned number with the 64 bits of `v` in two's complement.
pub open spec fn twos_complement(v: i64) -> nat {
    if v < 0 {
        (v + 0x1_0000_0000_0000_0000) as nat
    } else {
        v as nat
    }
}

/// The signed number whose two's complement is `n`, for `n` below `2^64`.
pub open spec fn from_twos_complement(n: nat) -> int {
    if n >= 0x8000_0000_0000_0000 {
        n - 0x1_0000_0000_0000_0000
    } else {
        n as int
    }
}

/// `width` bytes are written.
pub proof fn lemma_le_bytes_len(x: nat, width: nat)
    ensures
        le_bytes(x, width).len() == width,
    decreases width,
{
    if width > 0 {
        lemma_le_bytes_len(x / 256, (width - 1) as nat);
    }
}

/// Reading back what was written gives the number again, as far as it fits
/// into the bytes.
pub proof fn lemma_le_value_of_bytes(x: nat, width: nat)
    ensures
        le_value(le_bytes(x, width)) == x % byte_range(width),
    decreases width,
{
    if width == 0 {
    } else {
        let rest = (width - 1) as nat;
        let bytes = le_bytes(x, width);
        lemma_le_value_of_bytes(x / 256, rest);
        lemma_byte_range_pos(rest);
        assert(bytes.drop_first() =~= le_bytes(x / 256, rest));
        assert(bytes[0] == (x % 256) as u8);
        vstd::arithmetic::div_mod::lemma_breakdown(x as int, 256, byte_range(rest) as int);
    }
}

/// No byte range is empty.
pub proof fn lemma_byte_range_pos(width: nat)
    ensures
        byte_range(width) > 0,
    decreases width,
{
    if width > 0 {
        lemma_byte_range_pos((width - 1) as nat);
    }
}

/// A 64-bit integer written in eight bytes is read back as it was.
pub proof fn lemma_bigint_round_trip(v: i64)
    ensures
        from_twos_complement(le_value(le_bytes(twos_complement(v), 8))) == v,
{
    lemma_le_value_of_bytes(twos_complement(v), 8);
    assert(byte_range(8) == 0x1_0000_0000_0000_0000) by {
        reveal_with_fuel(byte_range, 9);
    }
}

/// A double written in eight bytes is read back bit for bit.
pub proof fn lemma_double_round_trip(bits: u64)
    ensures
        le_value(le_bytes(bits as nat, 8)) == bits,
{
    lemma_le_value_of_bytes(bits as nat, 8);
    assert(byte_range(8) == 0x1_0000_0000_0000_0000) by {
        reveal_with_fuel(byte_range, 9);
    }
}

/// The cell of a number given as the bits of a double.
pub open spec fn cell_double(bits: u64) -> Seq<u8> {
    seq![TAG_F64] + le_bytes(bits as nat, 8)
}

/// The cell of an integer: a double where a double holds it exactly, that is
/// up to a magnitude of `2^53`, and the integer's own eight bytes beyond.
pub open spec fn cell_int(v: i64) -> Seq<u8> {
    cell_record_bytes(int_record(v))
}

/// An integer is read back from its cell as it was: up to a magnitude of
/// `2^53` the cell holds the double that is this very integer, and beyond it
/// the cell holds the integer's own 64 bits.
pub proof fn lemma_cell_int_round_trip(v: i64)
    ensures
        cell_int(v).len() == 9,
        -EXACT_INT_LIMIT <= v <= EXACT_INT_LIMIT ==> cell_int(v)[0] == TAG_F64 && double_is_int(
            le_value(cell_int(v).subrange(1, 9)) as u64,
            v as int,
        ),
        !(-EXACT_INT_LIMIT <= v <= EXACT_INT_LIMIT) ==> cell_int(v)[0] == TAG_BIGINT
            && from_twos_complement(le_value(cell_int(v).subrange(1, 9))) == v,
{
    if -EXACT_INT_LIMIT <= v <= EXACT_INT_LIMIT {
        let bits = double_of_int(v as int);
        lemma_le_bytes_len(bits as nat, 8);
        lemma_double_round_trip(bits);
        lemma_double_of_int_exact(v as int);
        assert(cell_int(v).subrange(1, 9) =~= le_bytes(bits as nat, 8));
    } else {
        lemma_le_bytes_len(twos_complement(v), 8);
        lemma_bigint_round_trip(v);
        assert(cell_int(v).subrange(1, 9) =~= le_bytes(twos_complement(v), 8));
    }
}

/// The cell of a boolean.
pub open spec fn cell_bool(v: bool) -> Seq<u8> {
    seq![if v {
        TAG_TRUE
    } else {
        TAG_FALSE
    }]
}

/// The cell of the text with the given index in the string table.
pub open spec fn cell_string_ref(index: u32) -> Seq<u8> {
    seq![TAG_STRING_REF] + le_bytes(index as nat, 4)
}

/// The cell of a byte string: the low four bytes of its length, then the bytes.
pub open spec fn cell_bytes(bytes: Seq<u8>) -> Seq<u8> {
    seq![TAG_BYTES] + le_bytes(bytes.len(), 4) + bytes
}

/// A cell as the buffer holds it.
pub enum CellRecord {
    Null,
    Bool(bool),
    /// A number, by the bits of its double.
    Double(u64),
    /// An integer that no double holds exactly.
    BigInt(i64),
    /// A text, by its index in the string table.
    StringRef(u32),
    Bytes(Seq<u8>),
}

/// The bytes of a cell.
pub open spec fn cell_record_bytes(cell: CellRecord) -> Seq<u8> {
    match cell {
        CellRecord::Null => seq![TAG_NULL],
        CellRecord::Bool(v) => cell_bool(v),
        CellRecord::Double(bits) => cell_double(bits),
        CellRecord::BigInt(v) => seq![TAG_BIGINT] + le_bytes(twos_complement(v), 8),
        CellRecord::StringRef(index) => cell_string_ref(index),
        CellRecord::Bytes(bytes) => cell_bytes(bytes),
    }
}

/// The cell that an integer is written as: a double where a double holds
/// it exactly, the integer itself else.
pub open spec fn int_record(v: i64) -> CellRecord {
    if -EXACT_INT_LIMIT <= v <= EXACT_INT_LIMIT {
        CellRecord::Double(double_of_int(v as int))
    } else {
        CellRecord::BigInt(v)
    }
}

/// The bytes of cells that follow one another.
pub open spec fn cell_stream(cells: Seq<CellRecord>) -> Seq<u8>
    decreases cells.len(),
{
    if cells.len() == 0 {
        Seq::<u8>::empty()
    } else {
        cell_record_bytes(cells[0]) + cell_stream(cells.drop_first())
    }
}

/// The bytes of cells with one more cell behind them are the bytes of the
/// cells and then those of the one: the collectors write the stream that a
/// reader reads.
pub proof fn lemma_cell_stream_push(cells: Seq<CellRecord>, last: CellRecord)
    ensures
        cell_stream(cells.push(last)) == cell_stream(cells) + cell_record_bytes(last),
    decreases cells.len(),
{
    let grown = cells.push(last);
    if cells.len() == 0 {
        assert(grown.drop_first() =~= Seq::<CellRecord>::empty());
        assert(cell_stream(grown.drop_first()) =~= Seq::<u8>::empty());
        assert(grown[0] == last);
        assert(cell_stream(grown) =~= cell_stream(cells) + cell_record_bytes(last));
    } else {
        assert(grown.drop_first() =~= cells.drop_first().push(last));
        lemma_cell_stream_push(cells.drop_first(), last);
        assert(cell_stream(grown) =~= cell_stream(cells) + cell_record_bytes(last));
    }
}

/// The entry of a column in the column directory: its type tag, the low two
/// bytes of the length of its name in UTF-8, and the name.
pub open spec fn column_entry(c: ColumnModel) -> Seq<u8> {
    seq![type_id(c.column_type)] + le_bytes(encode_utf8(c.name).len(), 2) + encode_utf8(c.name)
}

/// The column directory: the entries of the columns in their order.
pub open spec fn column_directory(columns: Seq<ColumnModel>) -> Seq<u8>
    decreases columns.len(),
{
    if columns.len() == 0 {
        Seq::<u8>::empty()
    } else {
        column_directory(columns.drop_last()) + column_entry(columns.last())
    }
}

/// The entry of a text in the string table: the low four bytes of its length
/// in UTF-8, and the text.
pub open spec fn string_entry(s: Seq<char>) -> Seq<u8> {
    le_bytes(encode_utf8(s).len(), 4) + encode_utf8(s)
}

/// The string table: the entries of the texts in the order of their indices.
pub open spec fn string_table(strings: Seq<Seq<char>>) -> Seq<u8>
    decreases strings.len(),
{
    if strings.len() == 0 {
        Seq::<u8>::empty()
    } else {
        string_table(strings.drop_last()) + string_entry(strings.last())
    }
}

/// What a binary collector has received.
pub struct BinaryModel {
    /// How far the events have come.
    pub progress: Progress,
    pub columns: Seq<ColumnModel>,
    /// The string table: the distinct texts in the order of their first arrival.
    pub strings: Seq<Seq<char>>,
    /// The cells in the order of their arrival.
    pub cells: Seq<CellRecord>,
    pub rows_affected: i64,
}

impl BinaryModel {
    /// A collector that has received nothing.
    pub open spec fn start() -> BinaryModel {
        BinaryModel {
            progress: Progress::start(),
            columns: Seq::empty(),
            strings: Seq::empty(),
            cells: Seq::empty(),
            rows_affected: 0,
        }
    }

    /// The state after a column list came: the list is taken where it was
    /// due, and the event noted as out of order where it was not.
    pub open spec fn with_metadata(self, columns: Seq<ColumnModel>) -> BinaryModel {
        BinaryModel {
            progress: self.progress.after_metadata(),
            columns: if self.progress.admits_metadata() {
                columns
            } else {
                self.columns
            },
            ..self
        }
    }

    /// The state after a cell that holds no text came: the cell is put behind
    /// the others where it was due, and the event noted as out of order where
    /// it was not.
    pub open spec fn with_cell(self, cell: CellRecord) -> BinaryModel {
        if self.progress.admits_cell() {
            BinaryModel { cells: self.cells.push(cell), ..self }
        } else {
            BinaryModel { progress: self.progress.after_cell(), ..self }
        }
    }

    /// The state after the end came with the number of rows affected: the
    /// number is kept, as a signed one, where the end was due.
    pub open spec fn with_done(self, rows: u64) -> BinaryModel {
        BinaryModel {
            progress: self.progress.after_done(),
            rows_affected: if self.progress.admits_done() {
                rows as i64
            } else {
                self.rows_affected
            },
            ..self
        }
    }

    /// Whether the cells fill a whole number of rows: with no columns there
    /// must be no cells, else their count is a multiple of that of the columns.
    pub open spec fn is_whole(self) -> bool {
        if self.columns.len() == 0 {
            self.cells.len() == 0
        } else {
            self.cells.len() % self.columns.len() == 0
        }
    }

    /// The number of rows that the cells fill.
    pub open spec fn row_count(self) -> nat {
        if self.columns.len() == 0 {
            0
        } else {
            self.cells.len() / self.columns.len()
        }
    }

    /// What stands against putting the buffer together: a fault in the order
    /// of the events, or cells that fill no whole number of rows.
    pub open spec fn outcome(self) -> Option<DecodeError> {
        match self.progress.fault() {
            Some(e) => Some(e),
            None => if self.is_whole() {
                None
            } else {
                Some(DecodeError::PartialRow)
            },
        }
    }

    /// The string table after the text `s` was looked up in it: as before
    /// where it holds `s`, and with `s` at its end where it did not.
    pub open spec fn interned(self, s: Seq<char>) -> Seq<Seq<char>> {
        if self.strings.contains(s) {
            self.strings
        } else {
            self.strings.push(s)
        }
    }

    /// The index under which a cell names the text `s`: the low 32 bits of
    /// the place of `s` in the string table.
    pub open spec fn text_index(self, s: Seq<char>) -> u32 {
        (self.interned(s).index_of(s) % 0x1_0000_0000) as u32
    }

    /// The state after a cell that holds the text `s` came: where it was due,
    /// the text is looked up in the string table and the cell names it by its
    /// index; where it was not, the event is noted as out of order.
    pub open spec fn with_text(self, s: Seq<char>) -> BinaryModel {
        if self.progress.admits_cell() {
            BinaryModel {
                strings: self.interned(s),
                cells: self.cells.push(CellRecord::StringRef(self.text_index(s))),
                ..self
            }
        } else {
            BinaryModel { progress: self.progress.after_cell(), ..self }
        }
    }

    /// The header: the count of columns, the count of rows that the cells
    /// fill and the count of texts in four bytes each, and the number of rows
    /// affected in eight.
    pub open spec fn header(self) -> Seq<u8> {
        le_bytes(self.columns.len(), 4) + le_bytes(self.row_count(), 4) + le_bytes(
            self.strings.len(),
            4,
        ) + le_bytes(twos_complement(self.rows_affected), 8)
    }

    /// The whole buffer: the header, the column directory, the string table
    /// and the bytes of the cells.
    pub open spec fn encoded(self) -> Seq<u8> {
        self.header() + column_directory(self.columns) + string_table(self.strings) + cell_stream(
            self.cells,
        )
    }
}

/// Looking a text up keeps the texts of the table distinct, and leaves the
/// text in the table.
pub proof fn lemma_interned_distinct(m: BinaryModel, s: Seq<char>)
    requires
        m.strings.no_duplicates(),
    ensures
        m.interned(s).no_duplicates(),
        m.interned(s).contains(s),
        m.interned(s)[m.interned(s).index_of(s)] == s,
        0 <= m.interned(s).index_of(s) < m.interned(s).len(),
{
    let table = m.interned(s);
    if m.strings.contains(s) {
    } else {
        assert(table[m.strings.len() as int] == s);
        assert forall|i: int, j: int|
            0 <= i < table.len() && 0 <= j < table.len() && i != j implies table[i] != table[j] by {
            if i < m.strings.len() {
                assert(m.strings[i] == table[i]);
            }
            if j < m.strings.len() {
                assert(m.strings[j] == table[j]);
            }
        }
    }
}

/// A text that is written again gets the index it got before, and the string
/// table does not grow: it holds the text once.
pub proof fn lemma_same_text_same_index(m: BinaryModel, s: Seq<char>)
    requires
        m.strings.no_duplicates(),
    ensures
        m.with_text(s).text_index(s) == m.text_index(s),
        m.with_text(s).with_text(s).strings == m.with_text(s).strings,
        m.progress.admits_cell() ==> m.with_text(s).strings.contains(s) && m.with_text(
            s,
        ).with_text(s).cells == m.cells.push(CellRecord::StringRef(m.text_index(s))).push(
            CellRecord::StringRef(m.text_index(s)),
        ),
        forall|i: int, j: int|
            0 <= i < m.with_text(s).strings.len() && 0 <= j < m.with_text(s).strings.len()
                && m.with_text(s).strings[i] == s && m.with_text(s).strings[j] == s ==> i == j,
{
    lemma_interned_distinct(m, s);
}

/// The index of a text stays the same whatever text is written after it.
pub proof fn lemma_text_index_stable(m: BinaryModel, s: Seq<char>, later: Seq<char>)
    requires
        m.strings.no_duplicates(),
        m.strings.contains(s),
    ensures
        m.with_text(later).text_index(s) == m.text_index(s),
{
    lemma_interned_distinct(m, later);
    let before = m.strings;
    let after = m.interned(later);
    let i = before.index_of(s);
    assert(after[i] == s);
    assert(after.contains(s));
}

/// Appends the `width` low bytes of `x`, the lowest first.
pub fn push_le(buf: &mut Vec<u8>, x: u64, width: usize)
    ensures
        final(buf)@ == old(buf)@ + le_bytes(x as nat, width as nat),
{
    let mut rest: u64 = x;
    let mut i: usize = 0;
    while i < width
        invariant
            i <= width,
            buf@ + le_bytes(rest as nat, (width - i) as nat) == old(buf)@ + le_bytes(
                x as nat,
                width as nat,
            ),
        decreases width - i,
    {
        let ghost before = buf@;
        buf.push((rest % 256) as u8);
        proof {
            assert(buf@ + le_bytes((rest / 256) as nat, (width - i - 1) as nat) =~= before
                + le_bytes(rest as nat, (width - i) as nat));
        }
        rest = rest / 256;
        i = i + 1;
    }
    assert(buf@ =~= buf@ + le_bytes(rest as nat, 0));
}

/// Appends bytes.
pub fn push_all(buf: &mut Vec<u8>, bytes: &[u8])
    ensures
        final(buf)@ == old(buf)@ + bytes@,
{
    buf.extend_from_slice(bytes);
    assert(buf@ =~= old(buf)@ + bytes@);
}

/// The 64 bits of a signed integer as an unsigned one.
fn to_twos_complement(v: i64) -> (n: u64)
    ensures
        n == twos_complement(v),
{
    if v >= 0 {
        v as u64
    } else {
        (v + 0x7fff_ffff_ffff_ffff + 1) as u64 + 0x8000_0000_0000_0000
    }
}

/// The collector that writes the binary buffer.
pub struct FastRowCollector {
    progress: Progress,
    columns: Vec<Column>,
    rows_affected: i64,
    cell_count: usize,
    cell_buf: Vec<u8>,
    records: Ghost<Seq<CellRecord>>,
    string_table: Vec<String>,
    string_map: StringHashMap<u32>,
}

/// The texts of a vector of strings.
pub open spec fn texts(strings: Seq<String>) -> Seq<Seq<char>> {
    strings.map_values(|s: String| s@)
}

impl View for FastRowCollector {
    type V = BinaryModel;

    closed spec fn view(&self) -> BinaryModel {
        BinaryModel {
            progress: self.progress,
            columns: column_models(self.columns@),
            strings: texts(self.string_table@),
            cells: self.records@,
            rows_affected: self.rows_affected,
        }
    }
}

impl FastRowCollector {
    /// A collector that has received nothing.
    pub fn new() -> (c: FastRowCollector)
        ensures
            c.well_formed(),
            c@ == BinaryModel::start(),
    {
        let c = FastRowCollector {
            progress: Progress::new(),
            columns: Vec::new(),
            rows_affected: 0,
            cell_count: 0,
            cell_buf: Vec::with_capacity(1024 * 1024),
            records: Ghost(Seq::empty()),
            string_table: Vec::with_capacity(4096),
            string_map: StringHashMap::with_capacity(4096),
        };
        assert(c@.columns =~= Seq::empty());
        assert(c@.strings =~= Seq::empty());
        c
    }

    /// The texts of the string table are distinct.
    pub proof fn lemma_strings_distinct(&self)
        requires
            self.well_formed(),
        ensures
            self@.strings.no_duplicates(),
    {
    }

    /// Finds the index of a text in the string table, and puts the text at
    /// the table's end if the table does not hold it yet.
    pub fn intern_string(&mut self, s: &str) -> (index: u32)
        requires
            old(self).well_formed(),
        ensures
            final(self).well_formed(),
            index == old(self)@.text_index(s@),
            final(self)@ == (BinaryModel { strings: old(self)@.interned(s@), ..old(self)@ }),
    {
        let ghost table = texts(self.string_table@);
        let found = self.string_map.get(s);
        if let Some(index) = found {
            let index = *index;
            proof {
                assert(table.contains(s@));
                let at = table.index_of(s@);
                assert(self.string_table@[at]@ == s@);
            }
            return index;
        }
        proof {
            if table.contains(s@) {
                let at = table.index_of(s@);
                assert(self.string_table@[at]@ == s@);
            }
        }
        let index = (self.string_table.len() as u64 % 0x1_0000_0000) as u32;
        self.string_map.insert(String::from_str(s), index);
        self.string_table.push(String::from_str(s));
        proof {
            let grown = texts(self.string_table@);
            assert(grown =~= table.push(s@));
            assert(grown[table.len() as int] == s@);
            assert forall|i: int, j: int|
                0 <= i < grown.len() && 0 <= j < grown.len() && i != j implies grown[i]
                != grown[j] by {
                if i < table.len() {
                    assert(table[i] == grown[i]);
                }
                if j < table.len() {
                    assert(table[j] == grown[j]);
                }
            }
            assert forall|t: Seq<char>| #[trigger]
                self.string_map@.contains_key(t) implies grown.contains(t) by {
                if t != s@ {
                    let at = table.index_of(t);
                    assert(grown[at] == t);
                }
            }
            assert(grown.index_of(s@) == table.len());
        }
        index
    }

    fn push_text(&mut self, s: &str)
        requires
            old(self).well_formed(),
        ensures
            final(self).well_formed(),
            final(self)@ == old(self)@.with_text(s@),
    {
        if self.progress.note_cell() {
            let index = self.intern_string(s);
            let ghost before = self.cell_buf@;
            self.cell_buf.push(TAG_STRING_REF);
            push_le(&mut self.cell_buf, index as u64, 4);
            assert(self.cell_buf@ =~= before + cell_string_ref(index));
            self.count_cell(Ghost(CellRecord::StringRef(index)));
        }
    }

    /// Appends a cell that holds no text, given as its tag and what follows
    /// the tag, if a cell is due.
    fn push_cell(&mut self, tag: u8, payload: &[u8], Ghost(cell): Ghost<CellRecord>)
        requires
            old(self).well_formed(),
            cell_record_bytes(cell) == seq![tag] + payload@,
        ensures
            final(self).well_formed(),
            final(self)@ == old(self)@.with_cell(cell),
    {
        if self.progress.note_cell() {
            let ghost before = self.cell_buf@;
            self.cell_buf.push(tag);
            push_all(&mut self.cell_buf, payload);
            assert(self.cell_buf@ =~= before + cell_record_bytes(cell));
            self.count_cell(Ghost(cell));
        }
    }

    /// Counts a cell whose bytes were just appended.
    fn count_cell(&mut self, Ghost(cell): Ghost<CellRecord>)
        requires
            old(self).cell_count == old(self).records@.len(),
            old(self).cell_count < old(self).cell_buf@.len(),
            old(self).cell_buf@ == cell_stream(old(self).records@) + cell_record_bytes(cell),
        ensures
            final(self).records@ == old(self).records@.push(cell),
            final(self).cell_buf@ == cell_stream(final(self).records@),
            final(self).cell_count == final(self).records@.len(),
            final(self).cell_count <= final(self).cell_buf@.len(),
            final(self).progress == old(self).progress,
            final(self).columns == old(self).columns,
            final(self).rows_affected == old(self).rows_affected,
            final(self).cell_buf == old(self).cell_buf,
            final(self).string_table == old(self).string_table,
            final(self).string_map == old(self).string_map,
    {
        assert(self.cell_count < self.cell_buf.len());
        proof {
            lemma_cell_stream_push(self.records@, cell);
        }
        self.cell_count = self.cell_count + 1;
        self.records = Ghost(self.records@.push(cell));
    }

    fn push_double(&mut self, bits: u64)
        requires
            old(self).well_formed(),
        ensures
            final(self).well_formed(),
            final(self)@ == old(self)@.with_cell(CellRecord::Double(bits)),
    {
        let mut payload: Vec<u8> = Vec::new();
        push_le(&mut payload, bits, 8);
        assert(payload@ =~= le_bytes(bits as nat, 8));
        self.push_cell(TAG_F64, payload.as_slice(), Ghost(CellRecord::Double(bits)));
    }

    fn push_int(&mut self, v: i64)
        requires
            old(self).well_formed(),
        ensures
            final(self).well_formed(),
            final(self)@ == old(self)@.with_cell(int_record(v)),
    {
        if fits_double(v) {
            self.push_double(double_bits_of_int(v));
        } else {
            let mut payload: Vec<u8> = Vec::new();
            push_le(&mut payload, to_twos_complement(v), 8);
            assert(payload@ =~= le_bytes(twos_complement(v), 8));
            self.push_cell(TAG_BIGINT, payload.as_slice(), Ghost(CellRecord::BigInt(v)));
        }
    }

    /// Puts the buffer together: the header, the column directory, the string
    /// table and the cells. The header's count of rows is the number of rows
    /// that the cells fill.
    ///
    /// Fails if no column list was received, if an event came out of order,
    /// or if the cells do not fill a whole number of rows.
    pub fn encode(&self) -> (r: Result<Vec<u8>, DecodeError>)
        requires
            self.well_formed(),
        ensures
            match r {
                Ok(buf) => self@.outcome() is None && buf@ == self@.encoded(),
                Err(e) => self@.outcome() == Some(e),
            },
    {
        match self.progress.check() {
            Some(e) => {
                return Err(e);
            },
            None => {},
        }
        let width = self.columns.len();
        if width == 0 {
            if self.cell_count != 0 {
                return Err(DecodeError::PartialRow);
            }
        } else if self.cell_count % width != 0 {
            return Err(DecodeError::PartialRow);
        }
        let rows: usize = if width > 0 {
            self.cell_count / width
        } else {
            0
        };
        let mut buf: Vec<u8> = Vec::new();
        push_le(&mut buf, self.columns.len() as u64, 4);
        push_le(&mut buf, rows as u64, 4);
        push_le(&mut buf, self.string_table.len() as u64, 4);
        push_le(&mut buf, to_twos_complement(self.rows_affected), 8);
        assert(buf@ =~= self@.header());
        let mut i: usize = 0;
        while i < self.columns.len()
            invariant
                i <= self.columns@.len(),
                buf@ == self@.header() + column_directory(column_models(self.columns@.take(i as int))),
            decreases self.columns@.len() - i,
        {
            let ghost before = buf@;
            let column = &self.columns[i];
            buf.push(col_type_id(column.column_type()));
            let name = column.name().as_bytes();
            push_le(&mut buf, name.len() as u64, 2);
            push_all(&mut buf, name);
            i = i + 1;
            proof {
                let done = column_models(self.columns@.take(i as int));
                assert(done.drop_last() =~= column_models(self.columns@.take(i - 1)));
                assert(done.last() == column@);
                assert(buf@ =~= before + column_entry(column@));
                assert(buf@ =~= self@.header() + column_directory(done));
            }
        }
        assert(self.columns@.take(i as int) =~= self.columns@);
        let mut j: usize = 0;
        while j < self.string_table.len()
            invariant
                j <= self.string_table@.len(),
                buf@ == self@.header() + column_directory(self@.columns) + string_table(
                    texts(self.string_table@.take(j as int)),
                ),
            decreases self.string_table@.len() - j,
        {
            let ghost before = buf@;
            let text = self.string_table[j].as_str().as_bytes();
            push_le(&mut buf, text.len() as u64, 4);
            push_all(&mut buf, text);
            j = j + 1;
            proof {
                let done = texts(self.string_table@.take(j as int));
                assert(done.drop_last() =~= texts(self.string_table@.take(j - 1)));
                assert(done.last() == self.string_table@[j - 1]@);
                assert(buf@ =~= before + string_entry(done.last()));
                assert(buf@ =~= self@.header() + column_directory(self@.columns) + string_table(
                    done,
                ));
            }
        }
        assert(self.string_table@.take(j as int) =~= self.string_table@);
        push_all(&mut buf, self.cell_buf.as_slice());
        Ok(buf)
    }
}

impl Default for FastRowCollector {
    fn default() -> (c: FastRowCollector)
        ensures
            c.well_formed(),
            c@ == BinaryModel::start(),
    {
        FastRowCollector::new()
    }
}

impl RowSink for FastRowCollector {
    /// The string table holds each text once, and the map finds for each
    /// text of the table, and for no other, the low 32 bits of its place.
    closed spec fn well_formed(&self) -> bool {
        &&& texts(self.string_table@).no_duplicates()
        &&& forall|i: int|
            0 <= i < self.string_table@.len() ==> self.string_map@.contains_key(
                #[trigger] self.string_table@[i]@,
            ) && self.string_map@[self.string_table@[i]@] as int == i % 0x1_0000_0000
        &&& forall|s: Seq<char>| #[trigger]
            self.string_map@.contains_key(s) ==> texts(self.string_table@).contains(s)
        &&& self.cell_buf@ == cell_stream(self.records@)
        &&& self.cell_count == self.records@.len()
        &&& self.cell_count <= self.cell_buf@.len()
    }

    open spec fn progress(&self) -> Progress {
        self@.progress
    }

    /// Takes the column list, if it is the first and the end has not come.
    fn on_metadata(&mut self, columns: &[Column])
        ensures
            final(self)@ == old(self)@.with_metadata(column_models(columns@)),
    {
        if self.progress.note_metadata() {
            self.columns = copy_columns(columns);
        }
    }

    fn write_null(&mut self, col: usize)
        ensures
            final(self)@ == old(self)@.with_cell(CellRecord::Null),
    {
        let payload: Vec<u8> = Vec::new();
        assert(seq![TAG_NULL] + payload@ =~= seq![TAG_NULL]);
        self.push_cell(TAG_NULL, payload.as_slice(), Ghost(CellRecord::Null));
    }

    fn write_bool(&mut self, col: usize, v: bool)
        ensures
            final(self)@ == old(self)@.with_cell(CellRecord::Bool(v)),
    {
        let payload: Vec<u8> = Vec::new();
        let tag = if v {
            TAG_TRUE
        } else {
            TAG_FALSE
        };
        assert(seq![tag] + payload@ =~= cell_bool(v));
        self.push_cell(tag, payload.as_slice(), Ghost(CellRecord::Bool(v)));
    }

    fn write_u8(&mut self, col: usize, v: u8)
        ensures
            final(self)@ == old(self)@.with_cell(int_record(v as i64)),
    {
        self.push_int(v as i64);
    }

    fn write_i16(&mut self, col: usize, v: i16)
        ensures
            final(self)@ == old(self)@.with_cell(int_record(v as i64)),
    {
        self.push_int(v as i64);
    }

    fn write_i32(&mut self, col: usize, v: i32)
        ensures
            final(self)@ == old(self)@.with_cell(int_record(v as i64)),
    {
        self.push_int(v as i64);
    }

    /// An integer that a double holds exactly is written as that double, any
    /// other as itself.
    fn write_i64(&mut self, col: usize, v: i64)
        ensures
            final(self)@ == old(self)@.with_cell(int_record(v)),
    {
        self.push_int(v);
    }

    /// A single is written as the double of the same value.
    fn write_f32(&mut self, col: usize, bits: u32)
        ensures
            final(self)@ == old(self)@.with_cell(CellRecord::Double(widened(bits))),
    {
        self.push_double(widen_single(bits));
    }

    fn write_f64(&mut self, col: usize, bits: u64)
        ensures
            final(self)@ == old(self)@.with_cell(CellRecord::Double(bits)),
    {
        self.push_double(bits);
    }

    fn write_str(&mut self, col: usize, v: &str)
        ensures
            final(self)@ == old(self)@.with_text(v@),
    {
        self.push_text(v);
    }

    /// A byte string is written into the cell as it is.
    fn write_bytes(&mut self, col: usize, v: &[u8])
        ensures
            final(self)@ == old(self)@.with_cell(CellRecord::Bytes(v@)),
    {
        if self.progress.note_cell() {
            let ghost before = self.cell_buf@;
            self.cell_buf.push(TAG_BYTES);
            push_le(&mut self.cell_buf, v.len() as u64, 4);
            push_all(&mut self.cell_buf, v);
            assert(self.cell_buf@ =~= before + cell_bytes(v@));
            self.count_cell(Ghost(CellRecord::Bytes(v@)));
        }
    }

    fn write_guid(&mut self, col: usize, v: &[u8; 16])
        ensures
            final(self)@ == old(self)@.with_text(guid_text(v@)),
    {
        let s = guid_to_string(v);
        self.push_text(s.as_str());
    }

    fn write_decimal(&mut self, col: usize, value: i128, precision: u8, scale: u8)
        ensures
            final(self)@ == old(self)@.with_text(decimal_text(value as int, scale as nat)),
    {
        let s = decimal_to_string(value, scale);
        self.push_text(s.as_str());
    }

    fn write_date(&mut self, col: usize, unix_days: i32)
        ensures
            final(self)@ == old(self)@.with_text(date_text(date_of_day(unix_days as int))),
    {
        let s = unix_days_to_iso(unix_days);
        self.push_text(s.as_str());
    }

    /// The nanoseconds are read as an unsigned number.
    fn write_time(&mut self, col: usize, nanos: i64)
        ensures
            final(self)@ == old(self)@.with_text(time_text(as_unsigned(nanos) as nat)),
    {
        let s = nanos_to_time_str(nanos as u64);
        self.push_text(s.as_str());
    }

    fn write_datetime(&mut self, col: usize, micros: i64)
        ensures
            final(self)@ == old(self)@.with_text(datetime_text(micros as int)),
    {
        let s = micros_to_iso(micros);
        self.push_text(s.as_str());
    }

    fn write_datetimeoffset(&mut self, col: usize, micros: i64, offset_minutes: i16)
        ensures
            final(self)@ == old(self)@.with_text(
                datetime_text(micros as int) + offset_text(offset_minutes as int),
            ),
    {
        let s = micros_offset_to_iso(micros, offset_minutes);
        self.push_text(s.as_str());
    }

    /// Keeps the number of rows affected, as a signed number.
    fn on_done(&mut self, rows: u64)
        ensures
            final(self)@ == old(self)@.with_done(rows),
    {
        if self.progress.note_done() {
            self.rows_affected = rows as i64;
        }
    }
}

} // verus!
