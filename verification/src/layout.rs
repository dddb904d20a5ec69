//! Reading the binary buffer back.
//!
//! The buffer describes itself: its header tells how many columns and texts
//! follow, and each of them tells its own length. This module states how a
//! reader takes a buffer apart, and proves that what the reader finds in a
//! buffer is what the collector put into it.

use crate::binary::{
    byte_range, cell_record_bytes, cell_stream, column_directory, column_entry,
    from_twos_complement, le_bytes, le_value, lemma_bigint_round_trip, lemma_double_round_trip,
    lemma_le_bytes_len, lemma_le_value_of_bytes, string_entry, string_table, twos_complement,
    BinaryModel, CellRecord, TAG_BIGINT, TAG_BYTES, TAG_F64, TAG_FALSE, TAG_NULL,
    TAG_STRING_REF, TAG_TRUE,
};
use crate::columns::{type_id, ColumnModel};
use vstd::prelude::*;
use vstd::utf8::encode_utf8;

verus! {

/// A column as a reader finds it: its type tag and its name in UTF-8.
pub struct ColumnRecord {
    pub type_tag: u8,
    pub name: Seq<u8>,
}

/// What a reader finds in a buffer.
pub struct BufferParts {
    pub row_count: nat,
    pub rows_affected: int,
    pub columns: Seq<ColumnRecord>,
    /// The texts of the string table in UTF-8, each at its index.
    pub strings: Seq<Seq<u8>>,
    /// The bytes of the cells; `read_cells` takes them apart.
    pub cells: Seq<u8>,
}

/// `count` entries of a column directory read from the start of `bytes`, and
/// the bytes behind them; none where the bytes end too early.
pub open spec fn read_columns(bytes: Seq<u8>, count: nat) -> Option<(Seq<ColumnRecord>, Seq<u8>)>
    decreases count,
{
    if count == 0 {
        Some((Seq::empty(), bytes))
    } else if bytes.len() < 3 || bytes.len() < 3 + le_value(bytes.subrange(1, 3)) {
        None
    } else {
        let len = le_value(bytes.subrange(1, 3)) as int;
        let first = ColumnRecord { type_tag: bytes[0], name: bytes.subrange(3, 3 + len) };
        match read_columns(bytes.skip(3 + len), (count - 1) as nat) {
            Some((others, rest)) => Some((seq![first] + others, rest)),
            None => None,
        }
    }
}

/// `count` entries of a string table read from the start of `bytes`, and the
/// bytes behind them; none where the bytes end too early.
pub open spec fn read_strings(bytes: Seq<u8>, count: nat) -> Option<(Seq<Seq<u8>>, Seq<u8>)>
    decreases count,
{
    if count == 0 {
        Some((Seq::empty(), bytes))
    } else if bytes.len() < 4 || bytes.len() < 4 + le_value(bytes.subrange(0, 4)) {
        None
    } else {
        let len = le_value(bytes.subrange(0, 4)) as int;
        match read_strings(bytes.skip(4 + len), (count - 1) as nat) {
            Some((others, rest)) => Some((seq![bytes.subrange(4, 4 + len)] + others, rest)),
            None => None,
        }
    }
}

/// A buffer taken apart: the header's counts, then as many columns and
/// texts as the header tells, then the cells. None where the bytes end before
/// all is read.
pub open spec fn read_buffer(bytes: Seq<u8>) -> Option<BufferParts> {
    if bytes.len() < 20 {
        None
    } else {
        match read_columns(bytes.skip(20), le_value(bytes.subrange(0, 4))) {
            Some((columns, behind_columns)) => match read_strings(
                behind_columns,
                le_value(bytes.subrange(8, 12)),
            ) {
                Some((strings, cells)) => Some(
                    BufferParts {
                        row_count: le_value(bytes.subrange(4, 8)),
                        rows_affected: from_twos_complement(le_value(bytes.subrange(12, 20))),
                        columns,
                        strings,
                        cells,
                    },
                ),
                None => None,
            },
            None => None,
        }
    }
}

/// A column as the buffer holds it.
pub open spec fn column_record(c: ColumnModel) -> ColumnRecord {
    ColumnRecord { type_tag: type_id(c.column_type), name: encode_utf8(c.name) }
}

/// Whether the counts and lengths of a result set fit into the fields that
/// the buffer has for them: less than `2^32` columns and as many texts, no
/// column name of `2^16` bytes or more, and no text of `2^32` bytes or more.
pub open spec fn fits_layout(m: BinaryModel) -> bool {
    &&& m.columns.len() < 0x1_0000_0000
    &&& m.strings.len() < 0x1_0000_0000
    &&& forall|i: int|
        0 <= i < m.columns.len() ==> encode_utf8((#[trigger] m.columns[i]).name).len() < 0x1_0000
    &&& forall|i: int|
        0 <= i < m.strings.len() ==> encode_utf8(#[trigger] m.strings[i]).len() < 0x1_0000_0000
}

/// The numbers that two and four bytes write.
proof fn lemma_byte_ranges()
    ensures
        byte_range(2) == 0x1_0000,
        byte_range(4) == 0x1_0000_0000,
        byte_range(8) == 0x1_0000_0000_0000_0000,
{
    reveal_with_fuel(byte_range, 9);
}

/// A column directory starts with the entry of its first column.
proof fn lemma_column_directory_first(columns: Seq<ColumnModel>)
    requires
        columns.len() > 0,
    ensures
        column_directory(columns) == column_entry(columns[0]) + column_directory(
            columns.drop_first(),
        ),
    decreases columns.len(),
{
    if columns.len() == 1 {
        assert(columns.drop_last() =~= Seq::<ColumnModel>::empty());
        assert(columns.drop_first() =~= Seq::<ColumnModel>::empty());
        assert(column_directory(columns) =~= column_entry(columns[0]) + column_directory(
            columns.drop_first(),
        ));
    } else {
        let front = columns.drop_last();
        lemma_column_directory_first(front);
        assert(front.drop_first() =~= columns.drop_first().drop_last());
        assert(columns.drop_first().last() == columns.last());
        assert(column_directory(columns) =~= column_entry(columns[0]) + column_directory(
            columns.drop_first(),
        ));
    }
}

/// A string table starts with the entry of its first text.
proof fn lemma_string_table_first(strings: Seq<Seq<char>>)
    requires
        strings.len() > 0,
    ensures
        string_table(strings) == string_entry(strings[0]) + string_table(strings.drop_first()),
    decreases strings.len(),
{
    if strings.len() == 1 {
        assert(strings.drop_last() =~= Seq::<Seq<char>>::empty());
        assert(strings.drop_first() =~= Seq::<Seq<char>>::empty());
        assert(string_table(strings) =~= string_entry(strings[0]) + string_table(
            strings.drop_first(),
        ));
    } else {
        let front = strings.drop_last();
        lemma_string_table_first(front);
        assert(front.drop_first() =~= strings.drop_first().drop_last());
        assert(strings.drop_first().last() == strings.last());
        assert(string_table(strings) =~= string_entry(strings[0]) + string_table(
            strings.drop_first(),
        ));
    }
}

/// A column directory is read back column by column, whatever follows it.
pub proof fn lemma_read_columns(columns: Seq<ColumnModel>, behind: Seq<u8>)
    requires
        forall|i: int|
            0 <= i < columns.len() ==> encode_utf8((#[trigger] columns[i]).name).len() < 0x1_0000,
    ensures
        read_columns(column_directory(columns) + behind, columns.len()) == Some(
            (columns.map_values(|c: ColumnModel| column_record(c)), behind),
        ),
    decreases columns.len(),
{
    let records = columns.map_values(|c: ColumnModel| column_record(c));
    let bytes = column_directory(columns) + behind;
    if columns.len() == 0 {
        assert(bytes =~= behind);
        assert(records =~= Seq::<ColumnRecord>::empty());
    } else {
        let first = columns[0];
        let others = columns.drop_first();
        let name = encode_utf8(first.name);
        let len = name.len() as int;
        lemma_column_directory_first(columns);
        lemma_le_bytes_len(name.len(), 2);
        lemma_le_value_of_bytes(name.len(), 2);
        lemma_byte_ranges();
        assert(bytes =~= seq![type_id(first.column_type)] + le_bytes(name.len(), 2) + name + (
        column_directory(others) + behind));
        assert(bytes.subrange(1, 3) =~= le_bytes(name.len(), 2));
        assert(bytes.subrange(3, 3 + len) =~= name);
        assert(bytes.skip(3 + len) =~= column_directory(others) + behind);
        assert forall|i: int| 0 <= i < others.len() implies encode_utf8(
            (#[trigger] others[i]).name,
        ).len() < 0x1_0000 by {
            assert(others[i] == columns[i + 1]);
        }
        lemma_read_columns(others, behind);
        assert(records =~= seq![column_record(first)] + others.map_values(
            |c: ColumnModel| column_record(c),
        ));
    }
}

/// A string table is read back text by text, whatever follows it.
pub proof fn lemma_read_strings(strings: Seq<Seq<char>>, behind: Seq<u8>)
    requires
        forall|i: int|
            0 <= i < strings.len() ==> encode_utf8(#[trigger] strings[i]).len() < 0x1_0000_0000,
    ensures
        read_strings(string_table(strings) + behind, strings.len()) == Some(
            (strings.map_values(|s: Seq<char>| encode_utf8(s)), behind),
        ),
    decreases strings.len(),
{
    let records = strings.map_values(|s: Seq<char>| encode_utf8(s));
    let bytes = string_table(strings) + behind;
    if strings.len() == 0 {
        assert(bytes =~= behind);
        assert(records =~= Seq::<Seq<u8>>::empty());
    } else {
        let others = strings.drop_first();
        let text = encode_utf8(strings[0]);
        let len = text.len() as int;
        lemma_string_table_first(strings);
        lemma_le_bytes_len(text.len(), 4);
        lemma_le_value_of_bytes(text.len(), 4);
        lemma_byte_ranges();
        assert(bytes =~= le_bytes(text.len(), 4) + text + (string_table(others) + behind));
        assert(bytes.subrange(0, 4) =~= le_bytes(text.len(), 4));
        assert(bytes.subrange(4, 4 + len) =~= text);
        assert(bytes.skip(4 + len) =~= string_table(others) + behind);
        assert forall|i: int| 0 <= i < others.len() implies encode_utf8(
            #[trigger] others[i],
        ).len() < 0x1_0000_0000 by {
            assert(others[i] == strings[i + 1]);
        }
        lemma_read_strings(others, behind);
        assert(records =~= seq![text] + others.map_values(|s: Seq<char>| encode_utf8(s)));
    }
}

/// The header of a buffer holds, in its bytes 4 to 8, the number of rows
/// that the cells fill, whatever number the end of the result set carried,
/// and that number, the rows affected, in its bytes 12 to 20.
pub proof fn lemma_header_counts(m: BinaryModel)
    ensures
        m.encoded().len() >= 20,
        m.encoded().subrange(0, 4) == le_bytes(m.columns.len(), 4),
        m.encoded().subrange(4, 8) == le_bytes(m.row_count(), 4),
        m.encoded().subrange(8, 12) == le_bytes(m.strings.len(), 4),
        m.encoded().subrange(12, 20) == le_bytes(twos_complement(m.rows_affected), 8),
{
    let bytes = m.encoded();
    lemma_le_bytes_len(m.columns.len(), 4);
    lemma_le_bytes_len(m.row_count(), 4);
    lemma_le_bytes_len(m.strings.len(), 4);
    lemma_le_bytes_len(twos_complement(m.rows_affected), 8);
    assert(bytes.subrange(0, 4) =~= le_bytes(m.columns.len(), 4));
    assert(bytes.subrange(4, 8) =~= le_bytes(m.row_count(), 4));
    assert(bytes.subrange(8, 12) =~= le_bytes(m.strings.len(), 4));
    assert(bytes.subrange(12, 20) =~= le_bytes(twos_complement(m.rows_affected), 8));
}

/// A reader finds in the buffer of a result set the columns with their type
/// tags and names, the texts at their indices, the cells, the number of rows
/// affected and the low 32 bits of the number of rows that the cells fill,
/// as far as the result set fits into the layout.
pub proof fn lemma_buffer_reads_back(m: BinaryModel)
    requires
        fits_layout(m),
    ensures
        read_buffer(m.encoded()) == Some(
            BufferParts {
                row_count: m.row_count() % 0x1_0000_0000,
                rows_affected: m.rows_affected as int,
                columns: m.columns.map_values(|c: ColumnModel| column_record(c)),
                strings: m.strings.map_values(|s: Seq<char>| encode_utf8(s)),
                cells: cell_stream(m.cells),
            },
        ),
{
    let bytes = m.encoded();
    let body = column_directory(m.columns) + (string_table(m.strings) + cell_stream(m.cells));
    lemma_byte_ranges();
    lemma_le_bytes_len(m.columns.len(), 4);
    lemma_le_bytes_len(m.row_count(), 4);
    lemma_le_bytes_len(m.strings.len(), 4);
    lemma_le_bytes_len(twos_complement(m.rows_affected), 8);
    lemma_le_value_of_bytes(m.columns.len(), 4);
    lemma_le_value_of_bytes(m.row_count(), 4);
    lemma_le_value_of_bytes(m.strings.len(), 4);
    lemma_le_value_of_bytes(twos_complement(m.rows_affected), 8);
    assert(bytes =~= m.header() + body);
    assert(m.header().len() == 20);
    assert(bytes.subrange(0, 4) =~= le_bytes(m.columns.len(), 4));
    assert(bytes.subrange(4, 8) =~= le_bytes(m.row_count(), 4));
    assert(bytes.subrange(8, 12) =~= le_bytes(m.strings.len(), 4));
    assert(bytes.subrange(12, 20) =~= le_bytes(twos_complement(m.rows_affected), 8));
    assert(bytes.skip(20) =~= body);
    lemma_read_columns(m.columns, string_table(m.strings) + cell_stream(m.cells));
    lemma_read_strings(m.strings, cell_stream(m.cells));
}

/// The number of bytes that the cell at the start of `bytes` takes, by its
/// tag; none for a tag that names no kind of cell or a cell cut short.
pub open spec fn cell_len(bytes: Seq<u8>) -> Option<int> {
    if bytes.len() == 0 {
        None
    } else if bytes[0] == TAG_NULL || bytes[0] == TAG_FALSE || bytes[0] == TAG_TRUE {
        Some(1)
    } else if bytes[0] == TAG_F64 || bytes[0] == TAG_BIGINT {
        if bytes.len() >= 9 {
            Some(9)
        } else {
            None
        }
    } else if bytes[0] == TAG_STRING_REF {
        if bytes.len() >= 5 {
            Some(5)
        } else {
            None
        }
    } else if bytes[0] == TAG_BYTES {
        if bytes.len() >= 5 && bytes.len() >= 5 + le_value(bytes.subrange(1, 5)) {
            Some(5 + le_value(bytes.subrange(1, 5)) as int)
        } else {
            None
        }
    } else {
        None
    }
}

/// The cell that the bytes of one cell hold.
pub open spec fn read_cell(bytes: Seq<u8>) -> CellRecord {
    if bytes[0] == TAG_NULL {
        CellRecord::Null
    } else if bytes[0] == TAG_FALSE {
        CellRecord::Bool(false)
    } else if bytes[0] == TAG_TRUE {
        CellRecord::Bool(true)
    } else if bytes[0] == TAG_F64 {
        CellRecord::Double(le_value(bytes.subrange(1, 9)) as u64)
    } else if bytes[0] == TAG_BIGINT {
        CellRecord::BigInt(from_twos_complement(le_value(bytes.subrange(1, 9))) as i64)
    } else if bytes[0] == TAG_STRING_REF {
        CellRecord::StringRef(le_value(bytes.subrange(1, 5)) as u32)
    } else {
        CellRecord::Bytes(bytes.subrange(5, bytes.len() as int))
    }
}

/// The cells read one after the other until the bytes end; none where a tag
/// names no kind of cell or a cell is cut short.
pub open spec fn read_cells(bytes: Seq<u8>) -> Option<Seq<CellRecord>>
    decreases bytes.len(),
{
    if bytes.len() == 0 {
        Some(Seq::empty())
    } else {
        match cell_len(bytes) {
            Some(len) => if 1 <= len <= bytes.len() {
                match read_cells(bytes.skip(len)) {
                    Some(others) => Some(seq![read_cell(bytes.take(len))] + others),
                    None => None,
                }
            } else {
                None
            },
            None => None,
        }
    }
}

/// One cell is read back as it was written, whatever follows it.
proof fn lemma_read_cell(cell: CellRecord, behind: Seq<u8>)
    requires
        cell matches CellRecord::Bytes(b) ==> b.len() < 0x1_0000_0000,
    ensures
        ({
            let bytes = cell_record_bytes(cell) + behind;
            let len = cell_record_bytes(cell).len() as int;
            &&& len >= 1
            &&& cell_len(bytes) == Some(len)
            &&& read_cell(bytes.take(len)) == cell
            &&& bytes.skip(len) == behind
        }),
{
    let own = cell_record_bytes(cell);
    let bytes = own + behind;
    lemma_byte_ranges();
    match cell {
        CellRecord::Null => {},
        CellRecord::Bool(v) => {},
        CellRecord::Double(bits) => {
            lemma_le_bytes_len(bits as nat, 8);
            lemma_double_round_trip(bits);
            assert(bytes.take(9).subrange(1, 9) =~= le_bytes(bits as nat, 8));
        },
        CellRecord::BigInt(v) => {
            lemma_le_bytes_len(twos_complement(v), 8);
            lemma_bigint_round_trip(v);
            assert(bytes.take(9).subrange(1, 9) =~= le_bytes(twos_complement(v), 8));
        },
        CellRecord::StringRef(index) => {
            lemma_le_bytes_len(index as nat, 4);
            lemma_le_value_of_bytes(index as nat, 4);
            assert(bytes.take(5).subrange(1, 5) =~= le_bytes(index as nat, 4));
        },
        CellRecord::Bytes(b) => {
            lemma_le_bytes_len(b.len(), 4);
            lemma_le_value_of_bytes(b.len(), 4);
            assert(bytes.subrange(1, 5) =~= le_bytes(b.len(), 4));
            assert(bytes.take(5 + b.len() as int).subrange(5, 5 + b.len() as int) =~= b);
        },
    }
    assert(bytes.skip(own.len() as int) =~= behind);
    assert(bytes.take(own.len() as int) =~= own);
}

/// A reader finds in a stream of cells the cells that were written, as long
/// as no byte string among them has `2^32` bytes or more.
pub proof fn lemma_read_cells(cells: Seq<CellRecord>)
    requires
        forall|i: int|
            0 <= i < cells.len() ==> (#[trigger] cells[i] matches CellRecord::Bytes(b) ==> b.len()
                < 0x1_0000_0000),
    ensures
        read_cells(cell_stream(cells)) == Some(cells),
    decreases cells.len(),
{
    if cells.len() == 0 {
    } else {
        let others = cells.drop_first();
        lemma_read_cell(cells[0], cell_stream(others));
        assert forall|i: int| 0 <= i < others.len() implies (#[trigger] others[i] matches CellRecord::Bytes(
            b,
        ) ==> b.len() < 0x1_0000_0000) by {
            assert(others[i] == cells[i + 1]);
        }
        lemma_read_cells(others);
        assert(seq![cells[0]] + others =~= cells);
    }
}

} // verus!
