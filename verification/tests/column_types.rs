use rowsink::columns::{col_type_id, col_type_name, Column, ColumnInfo, ColumnType, MAX_TYPE_ID};

const ALL: [(ColumnType, u8, &str); 35] = [
    (ColumnType::Null, 0, "null"),
    (ColumnType::Bit, 1, "bit"),
    (ColumnType::Bitn, 1, "bit"),
    (ColumnType::Int1, 2, "tinyint"),
    (ColumnType::Int2, 3, "smallint"),
    (ColumnType::Int4, 4, "int"),
    (ColumnType::Int8, 5, "bigint"),
    (ColumnType::Intn, 6, "int"),
    (ColumnType::Float4, 7, "real"),
    (ColumnType::Float8, 8, "float"),
    (ColumnType::Floatn, 9, "float"),
    (ColumnType::Datetime, 10, "datetime"),
    (ColumnType::Datetime2, 10, "datetime"),
    (ColumnType::Datetime4, 10, "datetime"),
    (ColumnType::Datetimen, 10, "datetime"),
    (ColumnType::DatetimeOffsetn, 11, "datetimeoffset"),
    (ColumnType::Daten, 12, "date"),
    (ColumnType::Timen, 13, "time"),
    (ColumnType::Decimaln, 14, "decimal"),
    (ColumnType::Numericn, 14, "decimal"),
    (ColumnType::Guid, 15, "uniqueidentifier"),
    (ColumnType::NVarchar, 16, "nvarchar"),
    (ColumnType::NChar, 16, "nvarchar"),
    (ColumnType::NText, 16, "nvarchar"),
    (ColumnType::BigVarChar, 17, "varchar"),
    (ColumnType::BigChar, 17, "varchar"),
    (ColumnType::Text, 17, "varchar"),
    (ColumnType::BigVarBin, 18, "varbinary"),
    (ColumnType::BigBinary, 18, "varbinary"),
    (ColumnType::Image, 18, "varbinary"),
    (ColumnType::Xml, 19, "xml"),
    (ColumnType::Money, 20, "money"),
    (ColumnType::Money4, 20, "money"),
    (ColumnType::Udt, 21, "udt"),
    (ColumnType::SSVariant, 22, "sql_variant"),
];

#[test]
fn type_tags() {
    for (ct, id, _) in ALL {
        assert_eq!(col_type_id(ct), id);
        assert!(col_type_id(ct) <= MAX_TYPE_ID);
    }
}

#[test]
fn type_names() {
    for (ct, _, name) in ALL {
        assert_eq!(col_type_name(ct), name);
    }
}

#[test]
fn type_name_depends_on_the_tag_only() {
    for (a, ida, _) in ALL {
        for (b, idb, _) in ALL {
            if ida == idb {
                assert_eq!(col_type_name(a), col_type_name(b));
            }
        }
    }
}

#[test]
fn every_tag_is_used() {
    for id in 0..=MAX_TYPE_ID {
        assert!(ALL.iter().any(|(ct, _, _)| col_type_id(*ct) == id));
    }
}

#[test]
fn column_report() {
    let c = Column::new("total".to_string(), ColumnType::Money4);
    assert_eq!(c.name(), "total");
    assert_eq!(c.column_type(), ColumnType::Money4);
    let info = ColumnInfo::of(&c);
    assert_eq!(info.name, "total");
    assert_eq!(info.data_type, "money");
}
