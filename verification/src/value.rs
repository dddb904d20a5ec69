//! One decoded cell of a result set.

use crate::ieee::{double_is_int, in_signed_range, int_of_double};
use vstd::prelude::*;

verus! {

/// A cell as the collectors and the parameter inliner see it. A floating-point
/// number is held as the 64 bits of its IEEE-754 double.
#[derive(Debug, Clone, PartialEq, Eq)]
pub enum JsValueWrapper {
    Null,
    Bool(bool),
    I64(i64),
    F64(u64),
    Str(String),
    Bytes(Vec<u8>),
}

/// What a cell holds: text as its characters, a byte string as its bytes.
pub enum ValueModel {
    Null,
    Bool(bool),
    Int64(i64),
    Float64(u64),
    Str(Seq<char>),
    Bytes(Seq<u8>),
}

impl View for JsValueWrapper {
    type V = ValueModel;

    open spec fn view(&self) -> ValueModel {
        match self {
            JsValueWrapper::Null => ValueModel::Null,
            JsValueWrapper::Bool(b) => ValueModel::Bool(*b),
            JsValueWrapper::I64(v) => ValueModel::Int64(*v),
            JsValueWrapper::F64(bits) => ValueModel::Float64(*bits),
            JsValueWrapper::Str(s) => ValueModel::Str(s@),
            JsValueWrapper::Bytes(b) => ValueModel::Bytes(b@),
        }
    }
}

impl JsValueWrapper {
    /// The cell of a number that the host gives as a double: the integer that
    /// the double is, where it is one of a magnitude below `2^63`, and the
    /// double itself else.
    pub fn from_number(bits: u64) -> (cell: JsValueWrapper)
        ensures
            match cell {
                JsValueWrapper::I64(v) => double_is_int(bits, v as int) && in_signed_range(
                    v as int,
                ),
                JsValueWrapper::F64(b) => b == bits && forall|v: int|
                    double_is_int(bits, v) ==> !in_signed_range(v),
                _ => false,
            },
    {
        match int_of_double(bits) {
            Some(v) => JsValueWrapper::I64(v),
            None => JsValueWrapper::F64(bits),
        }
    }
}

/// The views of a sequence of cells.
pub open spec fn value_models(values: Seq<JsValueWrapper>) -> Seq<ValueModel> {
    values.map_values(|v: JsValueWrapper| v@)
}

} // verus!
