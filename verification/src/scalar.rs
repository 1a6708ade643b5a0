//! Constant column values.
//!
//! A [`ScalarValue`] is one constant cell value, used for partition-column
//! constants and for per-column minimum/maximum statistics. A
//! `Dictionary(key_type, value)` scalar is a dictionary-encoded constant:
//! when materialized over a batch it becomes a one-entry dictionary indexed
//! by all-zero keys. No floating-point constants are modelled.

use vstd::prelude::*;

use crate::bytes::clone_bytes;
use crate::schema::DataType;

verus! {

/// One constant cell value; `None` payloads are typed nulls.
#[derive(PartialEq, Eq)]
pub enum ScalarValue {
    Boolean(Option<bool>),
    Int8(Option<i8>),
    Int16(Option<i16>),
    Int32(Option<i32>),
    Int64(Option<i64>),
    UInt8(Option<u8>),
    UInt16(Option<u16>),
    UInt32(Option<u32>),
    UInt64(Option<u64>),
    Utf8(Option<Vec<u8>>),
    Dictionary(Box<DataType>, Box<ScalarValue>),
}

/// Mathematical model of a [`ScalarValue`].
#[verifier::ext_equal]
pub enum ScalarValueV {
    Boolean(Option<bool>),
    Int8(Option<i8>),
    Int16(Option<i16>),
    Int32(Option<i32>),
    Int64(Option<i64>),
    UInt8(Option<u8>),
    UInt16(Option<u16>),
    UInt32(Option<u32>),
    UInt64(Option<u64>),
    Utf8(Option<Seq<u8>>),
    Dictionary(DataType, Box<ScalarValueV>),
}

/// Mathematical model of a scalar, defined structurally.
pub open spec fn spec_scalar_view(s: ScalarValue) -> ScalarValueV
    decreases s,
{
    match s {
        ScalarValue::Boolean(v) => ScalarValueV::Boolean(v),
        ScalarValue::Int8(v) => ScalarValueV::Int8(v),
        ScalarValue::Int16(v) => ScalarValueV::Int16(v),
        ScalarValue::Int32(v) => ScalarValueV::Int32(v),
        ScalarValue::Int64(v) => ScalarValueV::Int64(v),
        ScalarValue::UInt8(v) => ScalarValueV::UInt8(v),
        ScalarValue::UInt16(v) => ScalarValueV::UInt16(v),
        ScalarValue::UInt32(v) => ScalarValueV::UInt32(v),
        ScalarValue::UInt64(v) => ScalarValueV::UInt64(v),
        ScalarValue::Utf8(v) => ScalarValueV::Utf8(
            match v {
                Some(s) => Some(s@),
                None => None,
            },
        ),
        ScalarValue::Dictionary(k, v) => ScalarValueV::Dictionary(*k, Box::new(spec_scalar_view(*v))),
    }
}

impl View for ScalarValue {
    type V = ScalarValueV;

    open spec fn view(&self) -> ScalarValueV {
        spec_scalar_view(*self)
    }
}

/// The declared type of a scalar.
pub open spec fn spec_scalar_data_type(v: ScalarValueV) -> DataType
    decreases v,
{
    match v {
        ScalarValueV::Boolean(_) => DataType::Boolean,
        ScalarValueV::Int8(_) => DataType::Int8,
        ScalarValueV::Int16(_) => DataType::Int16,
        ScalarValueV::Int32(_) => DataType::Int32,
        ScalarValueV::Int64(_) => DataType::Int64,
        ScalarValueV::UInt8(_) => DataType::UInt8,
        ScalarValueV::UInt16(_) => DataType::UInt16,
        ScalarValueV::UInt32(_) => DataType::UInt32,
        ScalarValueV::UInt64(_) => DataType::UInt64,
        ScalarValueV::Utf8(_) => DataType::Utf8,
        ScalarValueV::Dictionary(k, inner) => DataType::Dictionary(
            Box::new(k),
            Box::new(spec_scalar_data_type(*inner)),
        ),
    }
}

impl ScalarValue {
    /// The declared type of this value.
    pub fn data_type(&self) -> (r: DataType)
        ensures
            r == spec_scalar_data_type(self@),
        decreases self,
    {
        match self {
            ScalarValue::Boolean(_) => DataType::Boolean,
            ScalarValue::Int8(_) => DataType::Int8,
            ScalarValue::Int16(_) => DataType::Int16,
            ScalarValue::Int32(_) => DataType::Int32,
            ScalarValue::Int64(_) => DataType::Int64,
            ScalarValue::UInt8(_) => DataType::UInt8,
            ScalarValue::UInt16(_) => DataType::UInt16,
            ScalarValue::UInt32(_) => DataType::UInt32,
            ScalarValue::UInt64(_) => DataType::UInt64,
            ScalarValue::Utf8(_) => DataType::Utf8,
            ScalarValue::Dictionary(k, v) => DataType::Dictionary(
                Box::new((**k).clone()),
                Box::new(v.data_type()),
            ),
        }
    }
}

impl Clone for ScalarValue {
    fn clone(&self) -> (res: Self)
        ensures
            res@ == self@,
        decreases self,
    {
        match self {
            ScalarValue::Boolean(v) => ScalarValue::Boolean(*v),
            ScalarValue::Int8(v) => ScalarValue::Int8(*v),
            ScalarValue::Int16(v) => ScalarValue::Int16(*v),
            ScalarValue::Int32(v) => ScalarValue::Int32(*v),
            ScalarValue::Int64(v) => ScalarValue::Int64(*v),
            ScalarValue::UInt8(v) => ScalarValue::UInt8(*v),
            ScalarValue::UInt16(v) => ScalarValue::UInt16(*v),
            ScalarValue::UInt32(v) => ScalarValue::UInt32(*v),
            ScalarValue::UInt64(v) => ScalarValue::UInt64(*v),
            ScalarValue::Utf8(v) => ScalarValue::Utf8(
                match v {
                    Some(s) => Some(clone_bytes(s)),
                    None => None,
                },
            ),
            ScalarValue::Dictionary(k, v) => ScalarValue::Dictionary(
                Box::new((**k).clone()),
                Box::new((**v).clone()),
            ),
        }
    }
}

} // verus!
