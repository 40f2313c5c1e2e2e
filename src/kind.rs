//! The kinds that tag a typed value exported from the model checker.
use vstd::prelude::*;

verus! {

pub const BOOL_VALUE: u32 = 0;
pub const INT_VALUE: u32 = 1;
pub const REAL_VALUE: u32 = 2;
pub const STRING_VALUE: u32 = 3;
pub const RECORD_VALUE: u32 = 4;
pub const SET_ENUM_VALUE: u32 = 5;
pub const SET_OF_RCDS_VALUE: u32 = 6;
pub const SET_OF_TUPLES_VALUE: u32 = 7;
pub const TUPLE_VALUE: u32 = 8;
pub const FCN_LAMBDA_VALUE: u32 = 9;
pub const FCN_RCD_VALUE: u32 = 10;
pub const SET_OF_FCNS_VALUE: u32 = 15;
pub const SET_CAP_VALUE: u32 = 18;
pub const SET_CUP_VALUE: u32 = 19;
pub const MODEL_VALUE: u32 = 23;

/// How a kind is decoded.
pub enum KindClass {
    /// The object is the value.
    Plain,
    /// The object is a name that the constant dictionary may resolve.
    Name,
    Tuple,
    /// A set in any of its forms.
    Unordered,
    Record,
    Function,
    Unknown,
}

pub open spec fn kind_class(k: u32) -> KindClass {
    if k == BOOL_VALUE || k == INT_VALUE || k == REAL_VALUE {
        KindClass::Plain
    } else if k == STRING_VALUE || k == MODEL_VALUE {
        KindClass::Name
    } else if k == TUPLE_VALUE {
        KindClass::Tuple
    } else if k == SET_CAP_VALUE || k == SET_CUP_VALUE || k == SET_ENUM_VALUE || k == SET_OF_FCNS_VALUE
        || k == SET_OF_RCDS_VALUE || k == SET_OF_TUPLES_VALUE {
        KindClass::Unordered
    } else if k == RECORD_VALUE {
        KindClass::Record
    } else if k == FCN_RCD_VALUE || k == FCN_LAMBDA_VALUE {
        KindClass::Function
    } else {
        KindClass::Unknown
    }
}

/// Classifies a kind tag.
pub fn classify(k: u32) -> (r: KindClass)
    ensures
        r == kind_class(k),
{
    if k == BOOL_VALUE || k == INT_VALUE || k == REAL_VALUE {
        KindClass::Plain
    } else if k == STRING_VALUE || k == MODEL_VALUE {
        KindClass::Name
    } else if k == TUPLE_VALUE {
        KindClass::Tuple
    } else if k == SET_CAP_VALUE || k == SET_CUP_VALUE || k == SET_ENUM_VALUE || k == SET_OF_FCNS_VALUE
        || k == SET_OF_RCDS_VALUE || k == SET_OF_TUPLES_VALUE {
        KindClass::Unordered
    } else if k == RECORD_VALUE {
        KindClass::Record
    } else if k == FCN_RCD_VALUE || k == FCN_LAMBDA_VALUE {
        KindClass::Function
    } else {
        KindClass::Unknown
    }
}

} // verus!
