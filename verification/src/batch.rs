//! In-memory record batches and their column arrays.
//!
//! A [`ColumnArray`] is either a plain array of one value per row, or a
//! dictionary-encoded array whose per-row little-endian integer keys index
//! a small dictionary of values. A [`RecordBatch`] pairs a schema with one
//! column per field, all of the same row count. The model tracks the
//! column shapes and values; it does not re-check value types against the
//! schema's field types.

use vstd::prelude::*;

use crate::bytes::{
    lemma_le_bytes_nonneg, lemma_le_bytes_suffix_le, spec_le_bytes,
};
use crate::error::ScanError;
use crate::scalar::{spec_scalar_data_type, ScalarValue, ScalarValueV};
use crate::schema::{DataType, Schema, SchemaV};

verus! {

/// One column of a record batch.
pub enum ColumnArray {
    /// One value per row.
    Plain { data_type: DataType, values: Vec<ScalarValue> },
    /// Per-row keys of width `key_type`, each indexing `values`.
    Dictionary { key_type: DataType, keys: Vec<u8>, values: Box<ColumnArray> },
}

/// Mathematical model of a [`ColumnArray`].
#[verifier::ext_equal]
pub enum ColumnArrayV {
    Plain { data_type: DataType, values: Seq<ScalarValueV> },
    Dictionary { key_type: DataType, keys: Seq<u8>, values: Box<ColumnArrayV> },
}

/// Mathematical model of a column, defined structurally.
pub open spec fn spec_column_view(c: ColumnArray) -> ColumnArrayV
    decreases c,
{
    match c {
        ColumnArray::Plain { data_type, values } => ColumnArrayV::Plain {
            data_type,
            values: values@.map_values(|v: ScalarValue| v@),
        },
        ColumnArray::Dictionary { key_type, keys, values } => ColumnArrayV::Dictionary {
            key_type,
            keys: keys@,
            values: Box::new(spec_column_view(*values)),
        },
    }
}

impl View for ColumnArray {
    type V = ColumnArrayV;

    open spec fn view(&self) -> ColumnArrayV {
        spec_column_view(*self)
    }
}

/// Byte width of a dictionary key type; zero for types that cannot key a
/// dictionary.
pub open spec fn spec_index_width(dt: DataType) -> int {
    match dt {
        DataType::Int8 => 1,
        DataType::Int16 => 2,
        DataType::Int32 => 4,
        DataType::Int64 => 8,
        DataType::UInt8 => 1,
        DataType::UInt16 => 2,
        DataType::UInt32 => 4,
        DataType::UInt64 => 8,
        _ => 0,
    }
}

/// Whether `dt` is a fixed-width integer type usable as dictionary keys.
pub open spec fn spec_is_index_type(dt: DataType) -> bool {
    spec_index_width(dt) > 0
}

/// Byte width of a dictionary key type.
pub fn index_width(dt: &DataType) -> (r: usize)
    ensures
        r as int == spec_index_width(*dt),
{
    match dt {
        DataType::Int8 => 1,
        DataType::Int16 => 2,
        DataType::Int32 => 4,
        DataType::Int64 => 8,
        DataType::UInt8 => 1,
        DataType::UInt16 => 2,
        DataType::UInt32 => 4,
        DataType::UInt64 => 8,
        _ => 0,
    }
}

/// Number of rows a column holds.
pub open spec fn spec_column_rows(c: ColumnArrayV) -> int {
    match c {
        ColumnArrayV::Plain { values, .. } => values.len() as int,
        ColumnArrayV::Dictionary { key_type, keys, .. } => if spec_is_index_type(key_type) {
            keys.len() as int / spec_index_width(key_type)
        } else {
            0
        },
    }
}

/// The dictionary key of row `row`: the little-endian value of its slice
/// of the key buffer.
pub open spec fn spec_dict_key(keys: Seq<u8>, width: int, row: int) -> int
    recommends
        width > 0,
        0 <= row,
        (row + 1) * width <= keys.len(),
{
    spec_le_bytes(keys.subrange(row * width, (row + 1) * width))
}

/// Structural well-formedness of a column: dictionary keys have a proper
/// key type, fill whole rows, and every key indexes into the dictionary.
pub open spec fn spec_column_wf(c: ColumnArrayV) -> bool
    decreases c,
{
    match c {
        ColumnArrayV::Plain { .. } => true,
        ColumnArrayV::Dictionary { key_type, keys, values } => {
            let w = spec_index_width(key_type);
            &&& spec_is_index_type(key_type)
            &&& keys.len() as int % w == 0
            &&& spec_column_wf(*values)
            &&& forall|row: int|
                0 <= row < keys.len() as int / w ==> spec_dict_key(keys, w, row) < spec_column_rows(
                    *values,
                )
        },
    }
}

/// The value of row `row`, resolving dictionary indirection.
pub open spec fn spec_column_value(c: ColumnArrayV, row: int) -> ScalarValueV
    recommends
        spec_column_wf(c),
        0 <= row < spec_column_rows(c),
    decreases c,
{
    match c {
        ColumnArrayV::Plain { values, .. } => values[row],
        ColumnArrayV::Dictionary { key_type, keys, values } => spec_column_value(
            *values,
            spec_dict_key(keys, spec_index_width(key_type), row),
        ),
    }
}

impl ColumnArray {
    /// Number of rows this column holds.
    pub fn rows(&self) -> (r: usize)
        ensures
            r as int == spec_column_rows(self@),
    {
        match self {
            ColumnArray::Plain { values, .. } => values.len(),
            ColumnArray::Dictionary { key_type, keys, .. } => {
                let w = index_width(key_type);
                if w == 0 {
                    0
                } else {
                    keys.len() / w
                }
            },
        }
    }

    /// The value of row `row`, resolving dictionary indirection.
    pub fn value_at(&self, row: usize) -> (r: ScalarValue)
        requires
            spec_column_wf(self@),
            (row as int) < spec_column_rows(self@),
        ensures
            r@ == spec_column_value(self@, row as int),
        decreases self,
    {
        match self {
            ColumnArray::Plain { values, .. } => {
                proof {
                    assert(spec_column_value(self@, row as int) == values@[row as int]@);
                }
                values[row].clone()
            },
            ColumnArray::Dictionary { key_type, keys, values } => {
                let w = index_width(key_type);
                let klen = keys.len();
                let ghost wi = w as int;
                proof {
                    assert(keys@.len() <= usize::MAX);
                    assert((row as int) * wi + wi <= keys@.len() as int) by (nonlinear_arith)
                        requires
                            wi > 0,
                            (row as int) < keys@.len() as int / wi,
                            keys@.len() as int % wi == 0,
                    ;
                    assert((row as int) * wi >= 0) by (nonlinear_arith)
                        requires
                            wi > 0,
                            row as int >= 0,
                    ;
                }
                let start = row * w;
                let end = start + w;
                // Decode the little-endian key for this row.
                let nrows = values.rows();
                let ghost slice = keys@.subrange(start as int, end as int);
                let ghost full_key = spec_le_bytes(slice);
                proof {
                    assert((*values)@ == spec_column_view(**values));
                    assert(spec_dict_key(keys@, wi, row as int) == full_key);
                    assert(full_key < nrows as int);
                    lemma_le_bytes_nonneg(slice);
                }
                let mut acc: usize = 0;
                let mut i: usize = w;
                while i > 0
                    invariant
                        0 <= i <= w,
                        w == wi,
                        start + w == end <= keys@.len(),
                        slice == keys@.subrange(start as int, end as int),
                        acc as int == spec_le_bytes(slice.skip(i as int)),
                        full_key == spec_le_bytes(slice),
                        0 <= full_key <= usize::MAX,
                    decreases i,
                {
                    proof {
                        let t = slice.skip(i as int - 1);
                        assert(t[0] == slice[i as int - 1]);
                        assert(t.skip(1) =~= slice.skip(i as int));
                        assert(spec_le_bytes(t) == slice[i as int - 1] + 256 * spec_le_bytes(
                            slice.skip(i as int),
                        ));
                        lemma_le_bytes_suffix_le(slice, i as int - 1);
                        assert(slice[i as int - 1] == keys@[start + i - 1]);
                    }
                    let b = keys[start + i - 1];
                    acc = (b as usize) + 256 * acc;
                    i = i - 1;
                }
                proof {
                    assert(slice.skip(0) =~= slice);
                    assert(acc as int == full_key);
                }
                values.value_at(acc)
            },
        }
    }
}

/// A copy of a column.
impl Clone for ColumnArray {
    fn clone(&self) -> (res: Self)
        ensures
            res@ == self@,
        decreases self,
    {
        match self {
            ColumnArray::Plain { data_type, values } => {
                let mut vs: Vec<ScalarValue> = Vec::new();
                let mut i: usize = 0;
                while i < values.len()
                    invariant
                        i <= values.len(),
                        vs@.len() == i,
                        forall|j: int| 0 <= j < i ==> vs@[j]@ == values@[j]@,
                    decreases values.len() - i,
                {
                    vs.push(values[i].clone());
                    i = i + 1;
                }
                let r = ColumnArray::Plain { data_type: data_type.clone(), values: vs };
                proof {
                    assert(vs@.map_values(|v: ScalarValue| v@) =~= values@.map_values(
                        |v: ScalarValue| v@,
                    ));
                }
                r
            },
            ColumnArray::Dictionary { key_type, keys, values } => {
                ColumnArray::Dictionary {
                    key_type: key_type.clone(),
                    keys: crate::bytes::clone_bytes(keys),
                    values: Box::new((**values).clone()),
                }
            },
        }
    }
}

/// A constant column: `len` rows, each holding `val`.
pub open spec fn spec_constant_column(val: ScalarValueV, len: int) -> ColumnArrayV {
    ColumnArrayV::Plain {
        data_type: spec_scalar_data_type(val),
        values: Seq::new(len as nat, |i: int| val),
    }
}

/// Materialize `val` as a plain column of `len` rows.
pub fn constant_column(val: &ScalarValue, len: usize) -> (r: ColumnArray)
    ensures
        r@ == spec_constant_column(val@, len as int),
        spec_column_wf(r@),
        spec_column_rows(r@) == len as int,
{
    let mut vs: Vec<ScalarValue> = Vec::new();
    let mut i: usize = 0;
    while i < len
        invariant
            i <= len,
            vs@.len() == i,
            forall|j: int| 0 <= j < i ==> vs@[j]@ == val@,
        decreases len - i,
    {
        vs.push(val.clone());
        i = i + 1;
    }
    let r = ColumnArray::Plain { data_type: val.data_type(), values: vs };
    proof {
        assert(vs@.map_values(|v: ScalarValue| v@) =~= Seq::new(len as nat, |i: int| val@));
    }
    r
}

/// A schema paired with one column per field, all of equal row count.
pub struct RecordBatch {
    pub schema: Schema,
    pub columns: Vec<ColumnArray>,
    pub row_count: usize,
}

/// Mathematical model of a [`RecordBatch`].
#[verifier::ext_equal]
pub struct RecordBatchV {
    pub schema: SchemaV,
    pub columns: Seq<ColumnArrayV>,
    pub row_count: usize,
}

impl View for RecordBatch {
    type V = RecordBatchV;

    open spec fn view(&self) -> RecordBatchV {
        RecordBatchV {
            schema: self.schema@,
            columns: self.columns@.map_values(|c: ColumnArray| c@),
            row_count: self.row_count,
        }
    }
}

/// All columns hold equally many rows.
pub open spec fn spec_columns_uniform(cols: Seq<ColumnArrayV>) -> bool {
    forall|i: int|
        0 <= i < cols.len() ==> spec_column_rows(#[trigger] cols[i]) == spec_column_rows(cols[0])
}

/// Well-formedness of a batch: one column per schema field, every column
/// well formed and holding exactly `row_count` rows.
pub open spec fn spec_batch_wf(b: RecordBatchV) -> bool {
    &&& b.columns.len() == b.schema.fields.len()
    &&& forall|i: int| 0 <= i < b.columns.len() ==> spec_column_wf(#[trigger] b.columns[i])
    &&& forall|i: int|
        0 <= i < b.columns.len() ==> spec_column_rows(#[trigger] b.columns[i]) == b.row_count as int
}

impl RecordBatch {
    /// Pair `schema` with `columns`, rejecting a column count that does
    /// not match the schema width or columns of unequal row counts.
    pub fn try_new(schema: Schema, columns: Vec<ColumnArray>) -> (r: Result<RecordBatch, ScanError>)
        requires
            forall|i: int|
                0 <= i < columns@.len() ==> spec_column_wf(#[trigger] columns@[i]@),
        ensures
            r is Ok <==> (schema@.fields.len() == columns@.len() && spec_columns_uniform(
                columns@.map_values(|c: ColumnArray| c@),
            )),
            match r {
                Ok(b) => {
                    &&& b@.schema == schema@
                    &&& b@.columns == columns@.map_values(|c: ColumnArray| c@)
                    &&& spec_batch_wf(b@)
                },
                Err(e) => match e {
                    ScanError::BatchWidthMismatch { expected, actual } => expected
                        == schema@.fields.len() && actual == columns@.len() && expected != actual,
                    ScanError::RowCountMismatch { .. } => !spec_columns_uniform(
                        columns@.map_values(|c: ColumnArray| c@),
                    ),
                    _ => false,
                },
            },
    {
        if columns.len() != schema.fields.len() {
            return Err(
                ScanError::BatchWidthMismatch {
                    expected: schema.fields.len(),
                    actual: columns.len(),
                },
            );
        }
        let row_count: usize = if columns.len() == 0 {
            0
        } else {
            columns[0].rows()
        };
        let mut i: usize = 0;
        while i < columns.len()
            invariant
                i <= columns.len(),
                columns@.len() > 0 ==> row_count as int == spec_column_rows(columns@[0]@),
                forall|j: int|
                    0 <= j < i ==> spec_column_rows(#[trigger] columns@[j]@) == row_count as int,
            decreases columns.len() - i,
        {
            let actual = columns[i].rows();
            if actual != row_count {
                proof {
                    let colsv = columns@.map_values(|c: ColumnArray| c@);
                    assert(colsv[i as int] == columns@[i as int]@);
                    assert(colsv[0] == columns@[0]@);
                    assert(spec_column_rows(colsv[i as int]) != spec_column_rows(colsv[0]));
                }
                return Err(ScanError::RowCountMismatch { expected: row_count, actual });
            }
            i = i + 1;
        }
        let b = RecordBatch { schema, columns, row_count };
        proof {
            assert forall|k: int| 0 <= k < b@.columns.len() implies spec_column_wf(
                #[trigger] b@.columns[k],
            ) && spec_column_rows(b@.columns[k]) == b@.row_count as int by {
                assert(b@.columns[k] == b.columns@[k]@);
            }
        }
        Ok(b)
    }

    /// Number of rows in this batch.
    pub fn num_rows(&self) -> (r: usize)
        ensures
            r == self@.row_count,
    {
        self.row_count
    }

    /// Number of columns in this batch.
    pub fn num_columns(&self) -> (r: usize)
        ensures
            r as int == self@.columns.len(),
    {
        self.columns.len()
    }
}


impl Clone for RecordBatch {
    fn clone(&self) -> (res: Self)
        ensures
            res@ == self@,
    {
        let mut cols: Vec<ColumnArray> = Vec::new();
        let mut i: usize = 0;
        while i < self.columns.len()
            invariant
                i <= self.columns.len(),
                cols@.len() == i,
                forall|j: int| 0 <= j < i ==> cols@[j]@ == self.columns@[j]@,
            decreases self.columns.len() - i,
        {
            cols.push(self.columns[i].clone());
            i = i + 1;
        }
        let res = RecordBatch {
            schema: self.schema.clone(),
            columns: cols,
            row_count: self.row_count,
        };
        proof {
            assert(res@.columns =~= self@.columns);
        }
        res
    }
}

impl RecordBatch {
    /// The batch restricted to the columns `indices` selects, in that
    /// order. An index past the last column is rejected, naming the
    /// first offending index.
    pub fn project(&self, indices: &Vec<usize>) -> (r: Result<RecordBatch, ScanError>)
        requires
            spec_batch_wf(self@),
        ensures
            r is Ok <==> forall|i: int|
                0 <= i < indices@.len() ==> (#[trigger] indices@[i] as int) < self@.columns.len(),
            r matches Ok(b) ==> {
                &&& b@.schema.fields.len() == indices@.len()
                &&& forall|i: int|
                    0 <= i < indices@.len() ==> b@.schema.fields[i] == self@.schema.fields[
                        #[trigger] indices@[i] as int
                    ]
                &&& b@.schema.metadata == self@.schema.metadata
                &&& b@.columns.len() == indices@.len()
                &&& forall|i: int|
                    0 <= i < indices@.len() ==> b@.columns[i] == self@.columns[
                        #[trigger] indices@[i] as int
                    ]
                &&& b@.row_count == self@.row_count
                &&& spec_batch_wf(b@)
            },
            r matches Err(e) ==> {
                &&& match e {
                    ScanError::ProjectIndexOutOfBounds { index, max_field } => {
                        &&& max_field as int == self@.columns.len()
                        &&& exists|i: int|
                            0 <= i < indices@.len() && #[trigger] indices@[i] == index && (
                            index as int) >= self@.columns.len() && (forall|k: int|
                                0 <= k < i ==> (#[trigger] indices@[k] as int)
                                    < self@.columns.len())
                    },
                    _ => false,
                }
            },
    {
        let nf = self.columns.len();
        let mut fields: Vec<crate::schema::Field> = Vec::new();
        let mut cols: Vec<ColumnArray> = Vec::new();
        let mut i: usize = 0;
        while i < indices.len()
            invariant
                i <= indices@.len(),
                nf == self@.columns.len(),
                spec_batch_wf(self@),
                forall|k: int| 0 <= k < i ==> (#[trigger] indices@[k] as int) < nf as int,
                fields@.len() == i,
                forall|k: int|
                    0 <= k < i ==> fields@[k]@ == self@.schema.fields[
                        #[trigger] indices@[k] as int
                    ],
                cols@.len() == i,
                forall|k: int|
                    0 <= k < i ==> cols@[k]@ == self@.columns[#[trigger] indices@[k] as int],
            decreases indices.len() - i,
        {
            let idx = indices[i];
            if idx >= nf {
                return Err(ScanError::ProjectIndexOutOfBounds { index: idx, max_field: nf });
            }
            proof {
                assert(self.schema.fields@[idx as int]@ == self@.schema.fields[idx as int]);
                assert(self.columns@[idx as int]@ == self@.columns[idx as int]);
            }
            fields.push(self.schema.fields[idx].clone());
            cols.push(self.columns[idx].clone());
            i = i + 1;
        }
        let schema = crate::schema::Schema::new_with_metadata(
            fields,
            crate::schema::clone_metadata(&self.schema.metadata),
        );
        let b = RecordBatch { schema, columns: cols, row_count: self.row_count };
        proof {
            assert forall|k: int| 0 <= k < b@.columns.len() implies spec_column_wf(
                #[trigger] b@.columns[k],
            ) && spec_column_rows(b@.columns[k]) == b@.row_count as int by {
                assert(b@.columns[k] == cols@[k]@);
                assert(cols@[k]@ == self@.columns[indices@[k] as int]);
            }
        }
        Ok(b)
    }
}

} // verus!
