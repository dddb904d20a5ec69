//! Columns of a result set: the wire types a column can have, and the stable
//! type tag and the type name under which each is reported.

use vstd::prelude::*;
use vstd::string::StringExecFns;

verus! {

/// The type of a column as the wire protocol names it.
#[derive(Debug, Clone, Copy, PartialEq, Eq)]
pub enum ColumnType {
    Null,
    Bit,
    Bitn,
    Int1,
    Int2,
    Int4,
    Int8,
    Intn,
    Float4,
    Float8,
    Floatn,
    Datetime,
    Datetime2,
    Datetime4,
    Datetimen,
    DatetimeOffsetn,
    Daten,
    Timen,
    Decimaln,
    Numericn,
    Guid,
    NVarchar,
    NChar,
    NText,
    BigVarChar,
    BigChar,
    Text,
    BigVarBin,
    BigBinary,
    Image,
    Xml,
    Money,
    Money4,
    Udt,
    SSVariant,
}

/// The greatest type tag.
pub const MAX_TYPE_ID: u8 = 22;

/// The type tag of a wire type. The tags are part of the binary layout: a
/// reader of the buffer tells the columns' types by them.
pub open spec fn type_id(ct: ColumnType) -> u8 {
    match ct {
        ColumnType::Null => 0,
        ColumnType::Bit | ColumnType::Bitn => 1,
        ColumnType::Int1 => 2,
        ColumnType::Int2 => 3,
        ColumnType::Int4 => 4,
        ColumnType::Int8 => 5,
        ColumnType::Intn => 6,
        ColumnType::Float4 => 7,
        ColumnType::Float8 => 8,
        ColumnType::Floatn => 9,
        ColumnType::Datetime | ColumnType::Datetime2 | ColumnType::Datetime4
        | ColumnType::Datetimen => 10,
        ColumnType::DatetimeOffsetn => 11,
        ColumnType::Daten => 12,
        ColumnType::Timen => 13,
        ColumnType::Decimaln | ColumnType::Numericn => 14,
        ColumnType::Guid => 15,
        ColumnType::NVarchar | ColumnType::NChar | ColumnType::NText => 16,
        ColumnType::BigVarChar | ColumnType::BigChar | ColumnType::Text => 17,
        ColumnType::BigVarBin | ColumnType::BigBinary | ColumnType::Image => 18,
        ColumnType::Xml => 19,
        ColumnType::Money | ColumnType::Money4 => 20,
        ColumnType::Udt => 21,
        ColumnType::SSVariant => 22,
    }
}

/// The name under which the type with tag `id` is reported. The two integer
/// tags of the nullable-width kind share a name with their fixed-width
/// siblings, and so do the two of the floats.
pub open spec fn data_type_name(id: u8) -> Seq<char> {
    if id == 0 {
        "null"@
    } else if id == 1 {
        "bit"@
    } else if id == 2 {
        "tinyint"@
    } else if id == 3 {
        "smallint"@
    } else if id == 4 || id == 6 {
        "int"@
    } else if id == 5 {
        "bigint"@
    } else if id == 7 {
        "real"@
    } else if id == 8 || id == 9 {
        "float"@
    } else if id == 10 {
        "datetime"@
    } else if id == 11 {
        "datetimeoffset"@
    } else if id == 12 {
        "date"@
    } else if id == 13 {
        "time"@
    } else if id == 14 {
        "decimal"@
    } else if id == 15 {
        "uniqueidentifier"@
    } else if id == 16 {
        "nvarchar"@
    } else if id == 17 {
        "varchar"@
    } else if id == 18 {
        "varbinary"@
    } else if id == 19 {
        "xml"@
    } else if id == 20 {
        "money"@
    } else if id == 21 {
        "udt"@
    } else {
        "sql_variant"@
    }
}

/// Every wire type has a tag, and none above the greatest.
pub proof fn lemma_type_id_range(ct: ColumnType)
    ensures
        type_id(ct) <= MAX_TYPE_ID,
{
}

/// Maps a wire type to its type tag.
pub fn col_type_id(ct: ColumnType) -> (id: u8)
    ensures
        id == type_id(ct),
        id <= MAX_TYPE_ID,
{
    match ct {
        ColumnType::Null => 0,
        ColumnType::Bit | ColumnType::Bitn => 1,
        ColumnType::Int1 => 2,
        ColumnType::Int2 => 3,
        ColumnType::Int4 => 4,
        ColumnType::Int8 => 5,
        ColumnType::Intn => 6,
        ColumnType::Float4 => 7,
        ColumnType::Float8 => 8,
        ColumnType::Floatn => 9,
        ColumnType::Datetime | ColumnType::Datetime2 | ColumnType::Datetime4
        | ColumnType::Datetimen => 10,
        ColumnType::DatetimeOffsetn => 11,
        ColumnType::Daten => 12,
        ColumnType::Timen => 13,
        ColumnType::Decimaln | ColumnType::Numericn => 14,
        ColumnType::Guid => 15,
        ColumnType::NVarchar | ColumnType::NChar | ColumnType::NText => 16,
        ColumnType::BigVarChar | ColumnType::BigChar | ColumnType::Text => 17,
        ColumnType::BigVarBin | ColumnType::BigBinary | ColumnType::Image => 18,
        ColumnType::Xml => 19,
        ColumnType::Money | ColumnType::Money4 => 20,
        ColumnType::Udt => 21,
        ColumnType::SSVariant => 22,
    }
}

/// Maps a wire type to the name under which it is reported: the name of its
/// type tag.
pub fn col_type_name(ct: ColumnType) -> (name: &'static str)
    ensures
        name@ == data_type_name(type_id(ct)),
{
    match ct {
        ColumnType::Null => "null",
        ColumnType::Bit | ColumnType::Bitn => "bit",
        ColumnType::Int1 => "tinyint",
        ColumnType::Int2 => "smallint",
        ColumnType::Int4 => "int",
        ColumnType::Int8 => "bigint",
        ColumnType::Intn => "int",
        ColumnType::Float4 => "real",
        ColumnType::Float8 => "float",
        ColumnType::Floatn => "float",
        ColumnType::Datetime | ColumnType::Datetime2 | ColumnType::Datetime4
        | ColumnType::Datetimen => "datetime",
        ColumnType::DatetimeOffsetn => "datetimeoffset",
        ColumnType::Daten => "date",
        ColumnType::Timen => "time",
        ColumnType::Decimaln | ColumnType::Numericn => "decimal",
        ColumnType::Guid => "uniqueidentifier",
        ColumnType::NVarchar | ColumnType::NChar | ColumnType::NText => "nvarchar",
        ColumnType::BigVarChar | ColumnType::BigChar | ColumnType::Text => "varchar",
        ColumnType::BigVarBin | ColumnType::BigBinary | ColumnType::Image => "varbinary",
        ColumnType::Xml => "xml",
        ColumnType::Money | ColumnType::Money4 => "money",
        ColumnType::Udt => "udt",
        ColumnType::SSVariant => "sql_variant",
    }
}

/// A column of a result set: its name and its wire type.
#[derive(Debug, Clone, PartialEq, Eq)]
pub struct Column {
    pub name: String,
    pub column_type: ColumnType,
}

/// What a column holds.
pub struct ColumnModel {
    pub name: Seq<char>,
    pub column_type: ColumnType,
}

impl View for Column {
    type V = ColumnModel;

    open spec fn view(&self) -> ColumnModel {
        ColumnModel { name: self.name@, column_type: self.column_type }
    }
}

impl Column {
    /// A column with the given name and wire type.
    pub fn new(name: String, column_type: ColumnType) -> (c: Column)
        ensures
            c.name == name,
            c.column_type == column_type,
    {
        Column { name, column_type }
    }

    /// The column's name.
    pub fn name(&self) -> (name: &str)
        ensures
            name@ == self.name@,
    {
        self.name.as_str()
    }

    /// The column's wire type.
    pub fn column_type(&self) -> (ct: ColumnType)
        ensures
            ct == self.column_type,
    {
        self.column_type
    }
}

/// The views of a sequence of columns.
pub open spec fn column_models(columns: Seq<Column>) -> Seq<ColumnModel> {
    columns.map_values(|c: Column| c@)
}

/// Copies a list of columns.
pub fn copy_columns(columns: &[Column]) -> (copy: Vec<Column>)
    ensures
        column_models(copy@) == column_models(columns@),
{
    let mut copy: Vec<Column> = Vec::new();
    let mut i: usize = 0;
    while i < columns.len()
        invariant
            i <= columns@.len(),
            copy@.len() == i,
            forall|k: int| 0 <= k < i ==> (#[trigger] copy@[k])@ == columns@[k]@,
        decreases columns@.len() - i,
    {
        let c = &columns[i];
        copy.push(Column::new(String::from_str(c.name()), c.column_type()));
        i = i + 1;
    }
    assert(column_models(copy@) =~= column_models(columns@));
    copy
}

/// A column as a result set reports it: its name and the name of its type.
#[derive(Debug, Clone, PartialEq, Eq)]
pub struct ColumnInfo {
    pub name: String,
    pub data_type: String,
}

/// What a reported column holds.
pub struct ColumnInfoModel {
    pub name: Seq<char>,
    pub data_type: Seq<char>,
}

impl View for ColumnInfo {
    type V = ColumnInfoModel;

    open spec fn view(&self) -> ColumnInfoModel {
        ColumnInfoModel { name: self.name@, data_type: self.data_type@ }
    }
}

/// The report of a column.
pub open spec fn column_info_of(c: ColumnModel) -> ColumnInfoModel {
    ColumnInfoModel { name: c.name, data_type: data_type_name(type_id(c.column_type)) }
}

impl ColumnInfo {
    /// Reports a column.
    pub fn of(column: &Column) -> (info: ColumnInfo)
        ensures
            info@ == column_info_of(column@),
    {
        ColumnInfo {
            name: String::from_str(column.name()),
            data_type: String::from_str(col_type_name(column.column_type())),
        }
    }
}

} // verus!
