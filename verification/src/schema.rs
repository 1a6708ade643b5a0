//! Schemas, fields and data types.
//!
//! These model the column layout of a dataset: a [`Schema`] is an ordered
//! list of [`Field`]s plus key/value metadata, and a [`DataType`] describes
//! one column, including dictionary encodings used for partition columns.

use vstd::prelude::*;

use crate::bytes::{bytes_eq, clone_bytes};

verus! {

/// The type of one column.
///
/// `Dictionary(key_type, value_type)` is a dictionary encoding: per-row
/// integer keys of `key_type` index a small dictionary of `value_type`
/// values. `Float32` and `Float64` are carried as tags only; no floating
/// point value is ever held or computed here.
#[derive(PartialEq, Eq)]
pub enum DataType {
    Boolean,
    Int8,
    Int16,
    Int32,
    Int64,
    UInt8,
    UInt16,
    UInt32,
    UInt64,
    Float32,
    Float64,
    Utf8,
    Dictionary(Box<DataType>, Box<DataType>),
}

impl DataType {
    /// Structural equality, usable from executable code.
    pub fn eq_type(&self, other: &DataType) -> (r: bool)
        ensures
            r == (self == other),
        decreases self,
    {
        match (self, other) {
            (DataType::Boolean, DataType::Boolean) => true,
            (DataType::Int8, DataType::Int8) => true,
            (DataType::Int16, DataType::Int16) => true,
            (DataType::Int32, DataType::Int32) => true,
            (DataType::Int64, DataType::Int64) => true,
            (DataType::UInt8, DataType::UInt8) => true,
            (DataType::UInt16, DataType::UInt16) => true,
            (DataType::UInt32, DataType::UInt32) => true,
            (DataType::UInt64, DataType::UInt64) => true,
            (DataType::Float32, DataType::Float32) => true,
            (DataType::Float64, DataType::Float64) => true,
            (DataType::Utf8, DataType::Utf8) => true,
            (DataType::Dictionary(k1, v1), DataType::Dictionary(k2, v2)) => {
                k1.eq_type(k2) && v1.eq_type(v2)
            },
            _ => false,
        }
    }
}

impl Clone for DataType {
    fn clone(&self) -> (res: Self)
        ensures
            res == *self,
        decreases self,
    {
        match self {
            DataType::Boolean => DataType::Boolean,
            DataType::Int8 => DataType::Int8,
            DataType::Int16 => DataType::Int16,
            DataType::Int32 => DataType::Int32,
            DataType::Int64 => DataType::Int64,
            DataType::UInt8 => DataType::UInt8,
            DataType::UInt16 => DataType::UInt16,
            DataType::UInt32 => DataType::UInt32,
            DataType::UInt64 => DataType::UInt64,
            DataType::Float32 => DataType::Float32,
            DataType::Float64 => DataType::Float64,
            DataType::Utf8 => DataType::Utf8,
            DataType::Dictionary(k, v) => {
                DataType::Dictionary(Box::new((**k).clone()), Box::new((**v).clone()))
            },
        }
    }
}

/// One key/value pair of field or schema metadata.
pub struct MetadataEntry {
    pub key: Vec<u8>,
    pub value: Vec<u8>,
}

/// Mathematical model of a [`MetadataEntry`].
#[verifier::ext_equal]
pub struct MetadataEntryV {
    pub key: Seq<u8>,
    pub value: Seq<u8>,
}

impl View for MetadataEntry {
    type V = MetadataEntryV;

    open spec fn view(&self) -> MetadataEntryV {
        MetadataEntryV { key: self.key@, value: self.value@ }
    }
}

impl Clone for MetadataEntry {
    fn clone(&self) -> (res: Self)
        ensures
            res@ == self@,
    {
        MetadataEntry { key: clone_bytes(&self.key), value: clone_bytes(&self.value) }
    }
}

/// Value bound to the first entry of `md` whose key is `k`, if any.
pub open spec fn spec_metadata_get(md: Seq<MetadataEntryV>, k: Seq<u8>) -> Option<Seq<u8>>
    decreases md.len(),
{
    if md.len() == 0 {
        None
    } else if md[0].key == k {
        Some(md[0].value)
    } else {
        spec_metadata_get(md.skip(1), k)
    }
}

/// When `md[i]` is the first entry keyed `k`, the lookup returns its value.
pub proof fn lemma_metadata_get_at(md: Seq<MetadataEntryV>, k: Seq<u8>, i: int)
    requires
        0 <= i < md.len(),
        md[i].key == k,
        forall|j: int| 0 <= j < i ==> md[j].key != k,
    ensures
        spec_metadata_get(md, k) == Some(md[i].value),
    decreases i,
{
    if i > 0 {
        assert(md[0].key != k);
        assert(md.skip(1)[i - 1] == md[i]);
        assert forall|j: int| 0 <= j < i - 1 implies md.skip(1)[j].key != k by {
            assert(md.skip(1)[j] == md[j + 1]);
        }
        lemma_metadata_get_at(md.skip(1), k, i - 1);
    }
}

/// When no entry of `md` is keyed `k`, the lookup returns nothing.
pub proof fn lemma_metadata_get_none(md: Seq<MetadataEntryV>, k: Seq<u8>)
    requires
        forall|j: int| 0 <= j < md.len() ==> md[j].key != k,
    ensures
        spec_metadata_get(md, k) is None,
    decreases md.len(),
{
    if md.len() > 0 {
        assert forall|j: int| 0 <= j < md.skip(1).len() implies md.skip(1)[j].key != k by {
            assert(md.skip(1)[j] == md[j + 1]);
        }
        lemma_metadata_get_none(md.skip(1), k);
    }
}

/// First value bound to key `k` in `md`, copied out.
pub fn metadata_get(md: &Vec<MetadataEntry>, k: &Vec<u8>) -> (r: Option<Vec<u8>>)
    ensures
        match r {
            Some(v) => spec_metadata_get(md@.map_values(|e: MetadataEntry| e@), k@) == Some(v@),
            None => spec_metadata_get(md@.map_values(|e: MetadataEntry| e@), k@) is None,
        },
{
    let ghost mdv = md@.map_values(|e: MetadataEntry| e@);
    let mut i: usize = 0;
    while i < md.len()
        invariant
            i <= md.len(),
            mdv == md@.map_values(|e: MetadataEntry| e@),
            forall|j: int| 0 <= j < i ==> mdv[j].key != k@,
        decreases md.len() - i,
    {
        if bytes_eq(&md[i].key, k) {
            proof {
                lemma_metadata_get_at(mdv, k@, i as int);
            }
            return Some(clone_bytes(&md[i].value));
        }
        i = i + 1;
    }
    proof {
        lemma_metadata_get_none(mdv, k@);
    }
    None
}

/// Every entry of `sub` is present in `sup` with an equal value: `sup` is a
/// (not necessarily strict) superset of `sub`.
pub open spec fn spec_metadata_superset(sup: Seq<MetadataEntryV>, sub: Seq<MetadataEntryV>) -> bool {
    forall|i: int|
        0 <= i < sub.len() ==> spec_metadata_get(sup, sub[i].key) == Some(sub[i].value)
}

/// Whether every entry of `sub` appears, with an equal value, in `sup`.
pub fn metadata_superset(sup: &Vec<MetadataEntry>, sub: &Vec<MetadataEntry>) -> (r: bool)
    ensures
        r == spec_metadata_superset(
            sup@.map_values(|e: MetadataEntry| e@),
            sub@.map_values(|e: MetadataEntry| e@),
        ),
{
    let ghost supv = sup@.map_values(|e: MetadataEntry| e@);
    let ghost subv = sub@.map_values(|e: MetadataEntry| e@);
    let mut i: usize = 0;
    while i < sub.len()
        invariant
            i <= sub.len(),
            supv == sup@.map_values(|e: MetadataEntry| e@),
            subv == sub@.map_values(|e: MetadataEntry| e@),
            forall|j: int| 0 <= j < i ==> spec_metadata_get(supv, subv[j].key) == Some(subv[j].value),
        decreases sub.len() - i,
    {
        let found = metadata_get(sup, &sub[i].key);
        match found {
            Some(v) => {
                if !bytes_eq(&v, &sub[i].value) {
                    proof {
                        assert(spec_metadata_get(supv, subv[i as int].key) != Some(
                            subv[i as int].value,
                        ));
                    }
                    return false;
                }
            },
            None => {
                proof {
                    assert(spec_metadata_get(supv, subv[i as int].key) != Some(
                        subv[i as int].value,
                    ));
                }
                return false;
            },
        }
        i = i + 1;
    }
    true
}

/// Copy of a metadata list.
pub fn clone_metadata(md: &Vec<MetadataEntry>) -> (r: Vec<MetadataEntry>)
    ensures
        r@.map_values(|e: MetadataEntry| e@) == md@.map_values(|e: MetadataEntry| e@),
{
    let mut r: Vec<MetadataEntry> = Vec::new();
    let mut i: usize = 0;
    while i < md.len()
        invariant
            i <= md.len(),
            r@.len() == i,
            forall|j: int| 0 <= j < i ==> r@[j]@ == md@[j]@,
        decreases md.len() - i,
    {
        r.push(md[i].clone());
        i = i + 1;
    }
    proof {
        assert(r@.map_values(|e: MetadataEntry| e@) =~= md@.map_values(|e: MetadataEntry| e@));
    }
    r
}

/// One named column of a schema.
pub struct Field {
    pub name: Vec<u8>,
    pub data_type: DataType,
    pub nullable: bool,
    pub dict_id: i64,
    pub dict_is_ordered: bool,
    pub metadata: Vec<MetadataEntry>,
}

/// Mathematical model of a [`Field`].
#[verifier::ext_equal]
pub struct FieldV {
    pub name: Seq<u8>,
    pub data_type: DataType,
    pub nullable: bool,
    pub dict_id: i64,
    pub dict_is_ordered: bool,
    pub metadata: Seq<MetadataEntryV>,
}

impl View for Field {
    type V = FieldV;

    open spec fn view(&self) -> FieldV {
        FieldV {
            name: self.name@,
            data_type: self.data_type,
            nullable: self.nullable,
            dict_id: self.dict_id,
            dict_is_ordered: self.dict_is_ordered,
            metadata: self.metadata@.map_values(|e: MetadataEntry| e@),
        }
    }
}

impl Field {
    /// A field with no dictionary identity and no metadata.
    pub fn new(name: Vec<u8>, data_type: DataType, nullable: bool) -> (r: Field)
        ensures
            r@ == (FieldV {
                name: name@,
                data_type: data_type,
                nullable: nullable,
                dict_id: 0,
                dict_is_ordered: false,
                metadata: Seq::<MetadataEntryV>::empty(),
            }),
    {
        let r = Field {
            name,
            data_type,
            nullable,
            dict_id: 0,
            dict_is_ordered: false,
            metadata: Vec::new(),
        };
        proof {
            assert(r.metadata@.map_values(|e: MetadataEntry| e@) =~= Seq::<
                MetadataEntryV,
            >::empty());
        }
        r
    }
}

impl Clone for Field {
    fn clone(&self) -> (res: Self)
        ensures
            res@ == self@,
    {
        Field {
            name: clone_bytes(&self.name),
            data_type: self.data_type.clone(),
            nullable: self.nullable,
            dict_id: self.dict_id,
            dict_is_ordered: self.dict_is_ordered,
            metadata: clone_metadata(&self.metadata),
        }
    }
}

/// An ordered list of fields plus schema-level metadata.
pub struct Schema {
    pub fields: Vec<Field>,
    pub metadata: Vec<MetadataEntry>,
}

/// Mathematical model of a [`Schema`].
#[verifier::ext_equal]
pub struct SchemaV {
    pub fields: Seq<FieldV>,
    pub metadata: Seq<MetadataEntryV>,
}

impl View for Schema {
    type V = SchemaV;

    open spec fn view(&self) -> SchemaV {
        SchemaV {
            fields: self.fields@.map_values(|f: Field| f@),
            metadata: self.metadata@.map_values(|e: MetadataEntry| e@),
        }
    }
}

impl Schema {
    /// A schema with the given fields and no metadata.
    pub fn new(fields: Vec<Field>) -> (r: Schema)
        ensures
            r@.fields == fields@.map_values(|f: Field| f@),
            r@.metadata == Seq::<MetadataEntryV>::empty(),
    {
        let r = Schema { fields, metadata: Vec::new() };
        proof {
            assert(r.metadata@.map_values(|e: MetadataEntry| e@) =~= Seq::<
                MetadataEntryV,
            >::empty());
        }
        r
    }

    /// A schema with the given fields and metadata.
    pub fn new_with_metadata(fields: Vec<Field>, metadata: Vec<MetadataEntry>) -> (r: Schema)
        ensures
            r@.fields == fields@.map_values(|f: Field| f@),
            r@.metadata == metadata@.map_values(|e: MetadataEntry| e@),
    {
        Schema { fields, metadata }
    }
}

impl Clone for Schema {
    fn clone(&self) -> (res: Self)
        ensures
            res@ == self@,
    {
        let mut fields: Vec<Field> = Vec::new();
        let mut i: usize = 0;
        while i < self.fields.len()
            invariant
                i <= self.fields.len(),
                fields@.len() == i,
                forall|j: int| 0 <= j < i ==> fields@[j]@ == self.fields@[j]@,
            decreases self.fields.len() - i,
        {
            fields.push(self.fields[i].clone());
            i = i + 1;
        }
        let r = Schema { fields, metadata: clone_metadata(&self.metadata) };
        proof {
            assert(r@.fields =~= self@.fields);
        }
        r
    }
}

/// Index of the first field of `s` named `name`, if any.
pub open spec fn spec_field_index(fields: Seq<FieldV>, name: Seq<u8>) -> Option<int>
    decreases fields.len(),
{
    if fields.len() == 0 {
        None
    } else if fields[0].name == name {
        Some(0)
    } else {
        match spec_field_index(fields.skip(1), name) {
            Some(i) => Some(i + 1),
            None => None,
        }
    }
}

/// When `fields[i]` is the first field named `name`, the search returns `i`.
pub proof fn lemma_field_index_at(fields: Seq<FieldV>, name: Seq<u8>, i: int)
    requires
        0 <= i < fields.len(),
        fields[i].name == name,
        forall|j: int| 0 <= j < i ==> fields[j].name != name,
    ensures
        spec_field_index(fields, name) == Some(i),
    decreases i,
{
    if i > 0 {
        assert(fields[0].name != name);
        assert(fields.skip(1)[i - 1] == fields[i]);
        assert forall|j: int| 0 <= j < i - 1 implies fields.skip(1)[j].name != name by {
            assert(fields.skip(1)[j] == fields[j + 1]);
        }
        lemma_field_index_at(fields.skip(1), name, i - 1);
    }
}

/// A successful search returns the least index of a field so named.
pub proof fn lemma_field_index_props(fields: Seq<FieldV>, name: Seq<u8>)
    ensures
        match spec_field_index(fields, name) {
            Some(i) => 0 <= i < fields.len() && fields[i].name == name && (forall|j: int|
                0 <= j < i ==> fields[j].name != name),
            None => forall|j: int| 0 <= j < fields.len() ==> fields[j].name != name,
        },
    decreases fields.len(),
{
    if fields.len() != 0 && fields[0].name != name {
        lemma_field_index_props(fields.skip(1), name);
        match spec_field_index(fields.skip(1), name) {
            Some(i) => {
                assert(fields[i + 1] == fields.skip(1)[i]);
                assert forall|j: int| 0 <= j < i + 1 implies fields[j].name != name by {
                    if j >= 1 {
                        assert(fields.skip(1)[j - 1] == fields[j]);
                    }
                }
            },
            None => {
                assert forall|j: int| 0 <= j < fields.len() implies fields[j].name != name by {
                    if j >= 1 {
                        assert(fields.skip(1)[j - 1] == fields[j]);
                    }
                }
            },
        }
    }
}

/// When no field of `fields` is named `name`, the search returns nothing.
pub proof fn lemma_field_index_none(fields: Seq<FieldV>, name: Seq<u8>)
    requires
        forall|j: int| 0 <= j < fields.len() ==> fields[j].name != name,
    ensures
        spec_field_index(fields, name) is None,
    decreases fields.len(),
{
    if fields.len() > 0 {
        assert forall|j: int| 0 <= j < fields.skip(1).len() implies fields.skip(1)[j].name
            != name by {
            assert(fields.skip(1)[j] == fields[j + 1]);
        }
        lemma_field_index_none(fields.skip(1), name);
    }
}

impl Schema {
    /// Index of the first field named `name`, if any.
    pub fn index_of(&self, name: &Vec<u8>) -> (r: Option<usize>)
        ensures
            match r {
                Some(i) => spec_field_index(self@.fields, name@) == Some(i as int),
                None => spec_field_index(self@.fields, name@) is None,
            },
    {
        let mut i: usize = 0;
        while i < self.fields.len()
            invariant
                i <= self.fields.len(),
                forall|j: int| 0 <= j < i ==> self@.fields[j].name != name@,
            decreases self.fields.len() - i,
        {
            if bytes_eq(&self.fields[i].name, name) {
                proof {
                    lemma_field_index_at(self@.fields, name@, i as int);
                }
                return Some(i);
            }
            i = i + 1;
        }
        proof {
            lemma_field_index_none(self@.fields, name@);
        }
        None
    }
}


impl Schema {
    /// The schema restricted to the fields `indices` selects, in that
    /// order, keeping the schema metadata. An index past the last field
    /// is rejected, naming the first offending index.
    pub fn project(&self, indices: &Vec<usize>) -> (r: Result<Schema, crate::error::ScanError>)
        ensures
            r is Ok <==> forall|i: int|
                0 <= i < indices@.len() ==> (#[trigger] indices@[i] as int) < self@.fields.len(),
            r matches Ok(s2) ==> {
                &&& s2@.fields.len() == indices@.len()
                &&& forall|i: int|
                    0 <= i < indices@.len() ==> s2@.fields[i] == self@.fields[
                        #[trigger] indices@[i] as int
                    ]
                &&& s2@.metadata == self@.metadata
            },
            r matches Err(e) ==> match e {
                crate::error::ScanError::ProjectIndexOutOfBounds { index, max_field } => {
                    &&& max_field as int == self@.fields.len()
                    &&& exists|i: int|
                        0 <= i < indices@.len() && #[trigger] indices@[i] == index && (index
                            as int) >= self@.fields.len() && (forall|k: int|
                            0 <= k < i ==> (#[trigger] indices@[k] as int) < self@.fields.len())
                },
                _ => false,
            },
    {
        let nf = self.fields.len();
        let mut fields: Vec<Field> = Vec::new();
        let mut i: usize = 0;
        while i < indices.len()
            invariant
                i <= indices@.len(),
                nf == self@.fields.len(),
                forall|k: int| 0 <= k < i ==> (#[trigger] indices@[k] as int) < nf as int,
                fields@.len() == i,
                forall|k: int|
                    0 <= k < i ==> fields@[k]@ == self@.fields[#[trigger] indices@[k] as int],
            decreases indices.len() - i,
        {
            let idx = indices[i];
            if idx >= nf {
                return Err(
                    crate::error::ScanError::ProjectIndexOutOfBounds { index: idx, max_field: nf },
                );
            }
            proof {
                assert(self.fields@[idx as int]@ == self@.fields[idx as int]);
            }
            fields.push(self.fields[idx].clone());
            i = i + 1;
        }
        Ok(Schema::new_with_metadata(fields, clone_metadata(&self.metadata)))
    }
}

} // verus!
