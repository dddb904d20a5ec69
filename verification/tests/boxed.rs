use rowsink::collector::JsRowCollector;
use rowsink::columns::{Column, ColumnType};
use rowsink::sink::{DecodeError, Progress, RowSink};
use rowsink::value::JsValueWrapper;

fn two_columns() -> Vec<Column> {
    vec![
        Column::new("id".to_string(), ColumnType::Int4),
        Column::new("name".to_string(), ColumnType::NVarchar),
    ]
}

fn one_cell(write: impl FnOnce(&mut JsRowCollector)) -> JsValueWrapper {
    let mut c = JsRowCollector::new();
    c.on_metadata(&[Column::new("c".to_string(), ColumnType::SSVariant)]);
    write(&mut c);
    c.on_done(1);
    let mut result = c.into_query_result().unwrap();
    assert_eq!(result.row_count, 1);
    assert_eq!(result.rows.len(), 1);
    assert_eq!(result.rows[0].len(), 1);
    result.rows.remove(0).remove(0)
}

fn text_cell(write: impl FnOnce(&mut JsRowCollector)) -> String {
    match one_cell(write) {
        JsValueWrapper::Str(s) => s,
        other => panic!("no text: {:?}", other),
    }
}

#[test]
fn six_cells_in_two_columns_are_three_rows() {
    let mut c = JsRowCollector::new();
    c.on_metadata(&two_columns());
    for (i, name) in ["a", "b", "c"].iter().enumerate() {
        c.write_i32(0, i as i32 + 1);
        c.write_str(1, name);
    }
    c.on_done(3);
    let result = c.into_query_result().unwrap();
    assert_eq!(result.row_count, 3);
    assert_eq!(
        result.rows,
        vec![
            vec![JsValueWrapper::I64(1), JsValueWrapper::Str("a".to_string())],
            vec![JsValueWrapper::I64(2), JsValueWrapper::Str("b".to_string())],
            vec![JsValueWrapper::I64(3), JsValueWrapper::Str("c".to_string())],
        ]
    );
    assert_eq!(result.columns.len(), 2);
    assert_eq!(result.columns[0].name, "id");
    assert_eq!(result.columns[0].data_type, "int");
    assert_eq!(result.columns[1].name, "name");
    assert_eq!(result.columns[1].data_type, "nvarchar");
}

#[test]
fn a_partial_row_is_an_error() {
    for cells in [1, 3, 5, 7] {
        let mut c = JsRowCollector::new();
        c.on_metadata(&two_columns());
        for i in 0..cells {
            c.write_i32(i % 2, i as i32);
        }
        c.on_done(0);
        assert_eq!(c.into_query_result(), Err(DecodeError::PartialRow));
    }
}

#[test]
fn cells_without_columns_are_an_error() {
    let mut c = JsRowCollector::new();
    c.on_metadata(&[]);
    c.write_null(0);
    c.on_done(0);
    assert_eq!(c.into_query_result(), Err(DecodeError::PartialRow));
}

#[test]
fn missing_metadata_is_an_error() {
    let c = JsRowCollector::new();
    assert_eq!(c.into_query_result(), Err(DecodeError::MissingMetadata));
    let mut c = JsRowCollector::new();
    c.write_null(0);
    c.write_null(1);
    c.on_done(1);
    assert_eq!(c.into_query_result(), Err(DecodeError::MissingMetadata));
}

#[test]
fn no_rows() {
    let mut c = JsRowCollector::new();
    c.on_metadata(&two_columns());
    c.on_done(0);
    let result = c.into_query_result().unwrap();
    assert_eq!(result.row_count, 0);
    assert!(result.rows.is_empty());
    assert_eq!(result.columns.len(), 2);
}

#[test]
fn no_columns_and_no_cells() {
    let mut c = JsRowCollector::new();
    c.on_metadata(&[]);
    c.on_done(12);
    assert_eq!(c.rows_affected(), 12);
    let result = c.into_query_result().unwrap();
    assert_eq!(result.row_count, 0);
    assert!(result.rows.is_empty());
    assert!(result.columns.is_empty());
}

#[test]
fn one_column() {
    let mut c = JsRowCollector::new();
    c.on_metadata(&[Column::new("n".to_string(), ColumnType::Int8)]);
    for i in 0..5 {
        c.write_i64(0, i);
    }
    c.on_done(5);
    let result = c.into_query_result().unwrap();
    assert_eq!(result.row_count, 5);
    for (i, row) in result.rows.iter().enumerate() {
        assert_eq!(row, &vec![JsValueWrapper::I64(i as i64)]);
    }
}

#[test]
fn a_second_column_list_is_an_error() {
    let mut c = JsRowCollector::new();
    c.on_metadata(&two_columns());
    c.on_metadata(&[Column::new("only".to_string(), ColumnType::Bit)]);
    c.write_bool(0, true);
    c.write_bool(0, false);
    c.on_done(2);
    assert_eq!(c.into_query_result(), Err(DecodeError::OutOfOrder));
}

#[test]
fn a_cell_before_the_column_list_is_an_error() {
    let mut c = JsRowCollector::new();
    c.write_i32(0, 1);
    c.on_metadata(&two_columns());
    c.write_i32(0, 1);
    c.write_i32(1, 2);
    c.on_done(1);
    assert_eq!(c.into_query_result(), Err(DecodeError::OutOfOrder));
}

#[test]
fn a_cell_after_the_end_is_an_error() {
    let mut c = JsRowCollector::new();
    c.on_metadata(&two_columns());
    c.write_i32(0, 1);
    c.write_i32(1, 2);
    c.on_done(1);
    c.write_i32(0, 3);
    assert_eq!(c.into_query_result(), Err(DecodeError::OutOfOrder));
}

#[test]
fn a_column_list_after_the_end_is_an_error() {
    let mut c = JsRowCollector::new();
    c.on_done(3);
    c.on_metadata(&two_columns());
    assert_eq!(c.rows_affected(), 3);
    assert_eq!(c.into_query_result(), Err(DecodeError::MissingMetadata));
}

#[test]
fn a_second_end_is_an_error_and_changes_nothing() {
    let mut c = JsRowCollector::new();
    c.on_metadata(&two_columns());
    c.on_done(3);
    c.on_done(4);
    assert_eq!(c.rows_affected(), 3);
    assert_eq!(c.into_query_result(), Err(DecodeError::OutOfOrder));
}

#[test]
fn an_order_fault_comes_before_a_partial_row() {
    let mut c = JsRowCollector::new();
    c.on_metadata(&two_columns());
    c.write_i32(0, 1);
    c.on_done(1);
    c.on_done(1);
    assert_eq!(c.into_query_result(), Err(DecodeError::OutOfOrder));
}

#[test]
fn progress_of_the_events() {
    let mut p = Progress::new();
    assert_eq!(p, Progress { has_metadata: false, done: false, out_of_order: false });
    assert_eq!(p.check(), Some(DecodeError::MissingMetadata));
    assert!(!p.note_cell());
    assert_eq!(p.check(), Some(DecodeError::MissingMetadata));
    let mut p = Progress::new();
    assert!(p.note_metadata());
    assert_eq!(p.check(), None);
    assert!(p.note_cell());
    assert!(p.note_done());
    assert_eq!(p, Progress { has_metadata: true, done: true, out_of_order: false });
    assert_eq!(p.check(), None);
    assert!(!p.note_cell());
    assert_eq!(p.check(), Some(DecodeError::OutOfOrder));
    let mut p = Progress::new();
    assert!(p.note_metadata());
    assert!(!p.note_metadata());
    assert_eq!(p.check(), Some(DecodeError::OutOfOrder));
    let mut p = Progress::new();
    assert!(p.note_done());
    assert!(!p.note_done());
    assert!(!p.note_metadata());
    assert_eq!(p.check(), Some(DecodeError::MissingMetadata));
}

#[test]
fn rows_affected_is_kept() {
    let mut c = JsRowCollector::new();
    assert_eq!(c.rows_affected(), 0);
    c.on_metadata(&[]);
    c.on_done(42);
    assert_eq!(c.rows_affected(), 42);
    let mut c = JsRowCollector::new();
    c.on_done(u64::MAX);
    assert_eq!(c.rows_affected(), -1);
}

#[test]
fn small_integers_widen() {
    assert_eq!(one_cell(|c| c.write_u8(0, 255)), JsValueWrapper::I64(255));
    assert_eq!(one_cell(|c| c.write_i16(0, -32768)), JsValueWrapper::I64(-32768));
    assert_eq!(one_cell(|c| c.write_i32(0, i32::MIN)), JsValueWrapper::I64(i32::MIN as i64));
    assert_eq!(one_cell(|c| c.write_i64(0, i64::MAX)), JsValueWrapper::I64(i64::MAX));
}

#[test]
fn null_bool_and_bytes() {
    assert_eq!(one_cell(|c| c.write_null(0)), JsValueWrapper::Null);
    assert_eq!(one_cell(|c| c.write_bool(0, true)), JsValueWrapper::Bool(true));
    assert_eq!(one_cell(|c| c.write_bool(0, false)), JsValueWrapper::Bool(false));
    assert_eq!(
        one_cell(|c| c.write_bytes(0, &[1, 2, 3])),
        JsValueWrapper::Bytes(vec![1, 2, 3])
    );
    assert_eq!(one_cell(|c| c.write_str(0, "héllo")), JsValueWrapper::Str("héllo".to_string()));
}

#[test]
fn floats_are_kept_as_doubles() {
    let x = 2.5f64;
    assert_eq!(one_cell(|c| c.write_f64(0, x.to_bits())), JsValueWrapper::F64(x.to_bits()));
    let y = 0.1f32;
    assert_eq!(
        one_cell(|c| c.write_f32(0, y.to_bits())),
        JsValueWrapper::F64((y as f64).to_bits())
    );
}

#[test]
fn guid_is_hyphenated_lower_case_hex() {
    let bytes = [
        0xa1, 0xa2, 0xa3, 0xa4, 0xb1, 0xb2, 0xc1, 0xc2, 0xd1, 0xd2, 0xd3, 0xd4, 0xd5, 0xd6, 0xd7,
        0xd8,
    ];
    assert_eq!(
        text_cell(|c| c.write_guid(0, &bytes)),
        "a1a2a3a4-b1b2-c1c2-d1d2-d3d4d5d6d7d8"
    );
    assert_eq!(
        text_cell(|c| c.write_guid(0, &[0; 16])),
        "00000000-0000-0000-0000-000000000000"
    );
    let bytes = [
        0x01, 0x23, 0x45, 0x67, 0x89, 0xAB, 0xCD, 0xEF, 0x0F, 0xF0, 0x1E, 0xE1, 0x9A, 0xA9, 0xFF,
        0x00,
    ];
    assert_eq!(
        text_cell(|c| c.write_guid(0, &bytes)),
        "01234567-89ab-cdef-0ff0-1ee19aa9ff00"
    );
}

#[test]
fn decimal_and_temporal_cells_are_text() {
    assert_eq!(text_cell(|c| c.write_decimal(0, 12345, 10, 2)), "123.45");
    assert_eq!(text_cell(|c| c.write_date(0, -1)), "1969-12-31");
    assert_eq!(text_cell(|c| c.write_time(0, 3_723_000_000_000)), "01:02:03");
    assert_eq!(text_cell(|c| c.write_datetime(0, -1)), "1969-12-31T23:59:59.999999");
    assert_eq!(
        text_cell(|c| c.write_datetimeoffset(0, 0, -330)),
        "1970-01-01T00:00:00-05:30"
    );
}

#[test]
fn negative_time_is_read_as_unsigned() {
    assert_eq!(text_cell(|c| c.write_time(0, -1)), "5124095:34:33.7095516");
}
