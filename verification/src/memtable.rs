//! An in-memory table of preloaded record batches.
//!
//! A [`MemTable`] presents partitions of in-memory batches as one logical
//! table. At construction every batch's schema must be contained in the
//! declared schema (see [`crate::contains`]); when a first batch exists,
//! its exact schema — not the declared one — becomes the table's
//! authoritative schema. Scanning returns a projected, partitioned read
//! plan over the stored batches.

use vstd::prelude::*;

use crate::batch::{spec_batch_wf, RecordBatch, RecordBatchV};
use crate::contains::{schema_contains, spec_schema_contains, spec_schema_names_ok};
use crate::error::ScanError;
use crate::schema::{Schema, SchemaV};

verus! {

/// Partitions of in-memory batches under one declared schema.
pub struct MemTable {
    pub schema: Schema,
    pub batches: Vec<Vec<RecordBatch>>,
}

/// Mathematical model of a [`MemTable`].
#[verifier::ext_equal]
pub struct MemTableV {
    pub schema: SchemaV,
    pub batches: Seq<Seq<RecordBatchV>>,
}

impl View for MemTable {
    type V = MemTableV;

    open spec fn view(&self) -> MemTableV {
        MemTableV {
            schema: self.schema@,
            batches: self.batches@.map_values(
                |p: Vec<RecordBatch>| p@.map_values(|b: RecordBatch| b@),
            ),
        }
    }
}

/// Model of partitions of batches.
pub open spec fn spec_partitions_view(partitions: Seq<Vec<RecordBatch>>) -> Seq<
    Seq<RecordBatchV>,
> {
    partitions.map_values(|p: Vec<RecordBatch>| p@.map_values(|b: RecordBatch| b@))
}

/// Well-formedness of a table: every batch is well formed and as wide as
/// the table schema.
pub open spec fn spec_memtable_wf(t: MemTableV) -> bool {
    forall|p: int, k: int|
        0 <= p < t.batches.len() && 0 <= k < t.batches[p].len() ==> spec_batch_wf(
            #[trigger] t.batches[p][k],
        ) && t.batches[p][k].columns.len() == t.schema.fields.len()
}

/// Every batch of every partition is contained in `schema`.
pub open spec fn spec_all_contained(schema: SchemaV, bv: Seq<Seq<RecordBatchV>>) -> bool {
    forall|p: int, k: int|
        0 <= p < bv.len() && 0 <= k < bv[p].len() ==> spec_schema_contains(
            schema,
            (#[trigger] bv[p][k]).schema,
        )
}

impl MemTable {
    /// A table over `partitions`, declared with `schema`.
    ///
    /// Every batch must be contained in the declared schema, else a
    /// schema-mismatch error is returned. When a first batch exists, its
    /// exact schema becomes the table's schema; otherwise the declared
    /// schema does.
    pub fn try_new(schema: Schema, partitions: Vec<Vec<RecordBatch>>) -> (r: Result<
        MemTable,
        ScanError,
    >)
        requires
            spec_schema_names_ok(schema@),
            forall|p: int, k: int|
                0 <= p < partitions@.len() && 0 <= k < partitions@[p]@.len()
                    ==> spec_schema_names_ok((#[trigger] partitions@[p]@[k])@.schema)
                    && spec_batch_wf(partitions@[p]@[k]@),
        ensures
            r is Ok <==> spec_all_contained(schema@, spec_partitions_view(partitions@)),
            r matches Ok(t) ==> {
                let bv = spec_partitions_view(partitions@);
                &&& t@.batches == bv
                &&& t@.schema == (if bv.len() > 0 && bv[0].len() > 0 {
                    bv[0][0].schema
                } else {
                    schema@
                })
                &&& spec_memtable_wf(t@)
            },
            r matches Err(e) ==> e == ScanError::SchemaMismatch,
    {
        let ghost bv = spec_partitions_view(partitions@);
        let mut p: usize = 0;
        while p < partitions.len()
            invariant
                p <= partitions@.len(),
                bv == spec_partitions_view(partitions@),
                spec_schema_names_ok(schema@),
                forall|pp: int, k: int|
                    0 <= pp < partitions@.len() && 0 <= k < partitions@[pp]@.len()
                        ==> spec_schema_names_ok((#[trigger] partitions@[pp]@[k])@.schema)
                        && spec_batch_wf(partitions@[pp]@[k]@),
                forall|pp: int, k: int|
                    0 <= pp < p && 0 <= k < bv[pp].len() ==> spec_schema_contains(
                        schema@,
                        (#[trigger] bv[pp][k]).schema,
                    ),
            decreases partitions.len() - p,
        {
            let part = &partitions[p];
            let mut k: usize = 0;
            while k < part.len()
                invariant
                    k <= part@.len(),
                    p < partitions@.len(),
                    part == &partitions[p as int],
                    bv == spec_partitions_view(partitions@),
                    spec_schema_names_ok(schema@),
                    forall|pp: int, kk: int|
                        0 <= pp < partitions@.len() && 0 <= kk < partitions@[pp]@.len()
                            ==> spec_schema_names_ok((#[trigger] partitions@[pp]@[kk])@.schema)
                            && spec_batch_wf(partitions@[pp]@[kk]@),
                    forall|kk: int|
                        0 <= kk < k ==> spec_schema_contains(
                            schema@,
                            (#[trigger] bv[p as int][kk]).schema,
                        ),
                decreases part.len() - k,
            {
                proof {
                    assert(bv[p as int][k as int] == partitions@[p as int]@[k as int]@);
                }
                if !schema_contains(&schema, &part[k].schema) {
                    proof {
                        assert(!spec_schema_contains(schema@, bv[p as int][k as int].schema));
                    }
                    return Err(ScanError::SchemaMismatch);
                }
                k = k + 1;
            }
            p = p + 1;
        }
        let adopt_first = partitions.len() > 0 && partitions[0].len() > 0;
        let table_schema: Schema = if adopt_first {
            proof {
                assert(bv[0][0] == partitions@[0]@[0]@);
            }
            partitions[0][0].schema.clone()
        } else {
            schema
        };
        let t = MemTable { schema: table_schema, batches: partitions };
        proof {
            assert(t@.batches =~= bv);
            assert forall|pp: int, kk: int|
                0 <= pp < t@.batches.len() && 0 <= kk < t@.batches[pp].len() implies spec_batch_wf(
                #[trigger] t@.batches[pp][kk],
            ) && t@.batches[pp][kk].columns.len() == t@.schema.fields.len() by {
                assert(t@.batches[pp][kk] == bv[pp][kk]);
                assert(spec_schema_contains(schema@, bv[pp][kk].schema));
                if adopt_first {
                    assert(spec_schema_contains(schema@, bv[0][0].schema));
                }
            }
        }
        Ok(t)
    }

    /// The table's authoritative schema.
    pub fn schema(&self) -> (r: &Schema)
        ensures
            r@ == self@.schema,
    {
        &self.schema
    }

    /// A projected, partitioned read plan over the stored batches.
    ///
    /// Without a projection the plan carries the table schema and the
    /// batches unchanged; with one, the schema and every batch are
    /// restricted to the selected columns, and an index past the table's
    /// width is rejected, naming the first offending index.
    pub fn scan(&self, projection: Option<&Vec<usize>>) -> (r: Result<MemoryScan, ScanError>)
        requires
            spec_memtable_wf(self@),
        ensures
            match projection {
                None => r matches Ok(ms) && ms@.schema == self@.schema && ms@.partitions
                    == self@.batches,
                Some(proj) => {
                    &&& (r is Ok <==> forall|i: int|
                        0 <= i < proj@.len() ==> (#[trigger] proj@[i] as int)
                            < self@.schema.fields.len())
                    &&& r matches Ok(ms) ==> {
                        &&& ms@.schema.fields.len() == proj@.len()
                        &&& forall|i: int|
                            0 <= i < proj@.len() ==> ms@.schema.fields[i] == self@.schema.fields[
                                #[trigger] proj@[i] as int
                            ]
                        &&& ms@.schema.metadata == self@.schema.metadata
                        &&& ms@.partitions.len() == self@.batches.len()
                        &&& forall|p: int|
                            0 <= p < self@.batches.len() ==> (#[trigger] ms@.partitions[p]).len()
                                == self@.batches[p].len()
                        &&& forall|p: int, k: int|
                            0 <= p < self@.batches.len() && 0 <= k < self@.batches[p].len() ==> {
                                let ob = #[trigger] ms@.partitions[p][k];
                                let ib = self@.batches[p][k];
                                &&& ob.row_count == ib.row_count
                                &&& ob.columns.len() == proj@.len()
                                &&& forall|i: int|
                                    0 <= i < proj@.len() ==> ob.columns[i] == ib.columns[
                                        #[trigger] proj@[i] as int
                                    ]
                            }
                    }
                    &&& r matches Err(e) ==> match e {
                        ScanError::ProjectIndexOutOfBounds { index, max_field } => {
                            &&& max_field as int == self@.schema.fields.len()
                            &&& exists|i: int|
                                0 <= i < proj@.len() && #[trigger] proj@[i] == index && (index
                                    as int) >= self@.schema.fields.len() && (forall|k: int|
                                    0 <= k < i ==> (#[trigger] proj@[k] as int)
                                        < self@.schema.fields.len())
                        },
                        _ => false,
                    }
                },
            },
    {
        match projection {
            None => {
                let mut parts: Vec<Vec<RecordBatch>> = Vec::new();
                let mut p: usize = 0;
                while p < self.batches.len()
                    invariant
                        p <= self.batches@.len(),
                        parts@.len() == p,
                        forall|pp: int|
                            0 <= pp < p ==> #[trigger] spec_partitions_view(parts@)[pp]
                                == self@.batches[pp],
                    decreases self.batches.len() - p,
                {
                    let src = &self.batches[p];
                    let mut one: Vec<RecordBatch> = Vec::new();
                    let mut k: usize = 0;
                    while k < src.len()
                        invariant
                            k <= src@.len(),
                            p < self.batches@.len(),
                            src == &self.batches[p as int],
                            one@.len() == k,
                            forall|kk: int| 0 <= kk < k ==> one@[kk]@ == src@[kk]@,
                        decreases src.len() - k,
                    {
                        one.push(src[k].clone());
                        k = k + 1;
                    }
                    let ghost parts0 = parts@;
                    parts.push(one);
                    proof {
                        assert forall|pp: int|
                            0 <= pp < p + 1 implies #[trigger] spec_partitions_view(parts@)[pp]
                            == self@.batches[pp] by {
                            if pp < p {
                                assert(parts@[pp] == parts0[pp]);
                                assert(spec_partitions_view(parts0)[pp] == self@.batches[pp]);
                            } else {
                                assert(parts@[pp] == one);
                                assert(spec_partitions_view(parts@)[pp] =~= self@.batches[pp]);
                            }
                        }
                    }
                    p = p + 1;
                }
                let ms = MemoryScan { schema: self.schema.clone(), partitions: parts };
                proof {
                    assert(ms@.partitions =~= self@.batches);
                }
                Ok(ms)
            },
            Some(proj) => {
                let schema2 = match self.schema.project(proj) {
                    Ok(s2) => s2,
                    Err(e) => {
                        return Err(e);
                    },
                };
                let mut parts: Vec<Vec<RecordBatch>> = Vec::new();
                let mut p: usize = 0;
                while p < self.batches.len()
                    invariant
                        p <= self.batches@.len(),
                        spec_memtable_wf(self@),
                        forall|i: int|
                            0 <= i < proj@.len() ==> (#[trigger] proj@[i] as int)
                                < self@.schema.fields.len(),
                        parts@.len() == p,
                        forall|pp: int|
                            0 <= pp < p ==> (#[trigger] spec_partitions_view(parts@)[pp]).len()
                                == self@.batches[pp].len(),
                        forall|pp: int, kk: int|
                            0 <= pp < p && 0 <= kk < self@.batches[pp].len() ==> {
                                let ob = #[trigger] spec_partitions_view(parts@)[pp][kk];
                                let ib = self@.batches[pp][kk];
                                &&& ob.row_count == ib.row_count
                                &&& ob.columns.len() == proj@.len()
                                &&& forall|i: int|
                                    0 <= i < proj@.len() ==> ob.columns[i] == ib.columns[
                                        #[trigger] proj@[i] as int
                                    ]
                            },
                    decreases self.batches.len() - p,
                {
                    let src = &self.batches[p];
                    let mut one: Vec<RecordBatch> = Vec::new();
                    let mut k: usize = 0;
                    while k < src.len()
                        invariant
                            k <= src@.len(),
                            p < self.batches@.len(),
                            src == &self.batches[p as int],
                            spec_memtable_wf(self@),
                            forall|i: int|
                                0 <= i < proj@.len() ==> (#[trigger] proj@[i] as int)
                                    < self@.schema.fields.len(),
                            one@.len() == k,
                            forall|kk: int|
                                0 <= kk < k ==> {
                                    let ob = #[trigger] one@[kk]@;
                                    let ib = self@.batches[p as int][kk];
                                    &&& ob.row_count == ib.row_count
                                    &&& ob.columns.len() == proj@.len()
                                    &&& forall|i: int|
                                        0 <= i < proj@.len() ==> ob.columns[i] == ib.columns[
                                            #[trigger] proj@[i] as int
                                        ]
                                },
                        decreases src.len() - k,
                    {
                        proof {
                            assert(src@[k as int]@ == self@.batches[p as int][k as int]);
                            assert(spec_batch_wf(self@.batches[p as int][k as int]));
                        }
                        let pb = match src[k].project(proj) {
                            Ok(b) => b,
                            Err(_) => vstd::pervasive::unreached(),
                        };
                        one.push(pb);
                        k = k + 1;
                    }
                    let ghost parts0 = parts@;
                    parts.push(one);
                    proof {
                        assert forall|pp: int|
                            0 <= pp < p + 1 implies (#[trigger] spec_partitions_view(
                            parts@,
                        )[pp]).len() == self@.batches[pp].len() by {
                            if pp < p {
                                assert(parts@[pp] == parts0[pp]);
                                assert(spec_partitions_view(parts0)[pp].len()
                                    == self@.batches[pp].len());
                            } else {
                                assert(parts@[pp] == one);
                            }
                        }
                        assert forall|pp: int, kk: int|
                            0 <= pp < p + 1 && 0 <= kk < self@.batches[pp].len() implies {
                            let ob = #[trigger] spec_partitions_view(parts@)[pp][kk];
                            let ib = self@.batches[pp][kk];
                            &&& ob.row_count == ib.row_count
                            &&& ob.columns.len() == proj@.len()
                            &&& forall|i: int|
                                0 <= i < proj@.len() ==> ob.columns[i] == ib.columns[
                                    #[trigger] proj@[i] as int
                                ]
                        } by {
                            if pp < p {
                                assert(parts@[pp] == parts0[pp]);
                                assert(spec_partitions_view(parts@)[pp] == spec_partitions_view(
                                    parts0,
                                )[pp]);
                                assert({
                                    let ob = spec_partitions_view(parts0)[pp][kk];
                                    let ib = self@.batches[pp][kk];
                                    &&& ob.row_count == ib.row_count
                                    &&& ob.columns.len() == proj@.len()
                                    &&& forall|i: int|
                                        0 <= i < proj@.len() ==> ob.columns[i] == ib.columns[
                                            #[trigger] proj@[i] as int
                                        ]
                                });
                            } else {
                                assert(parts@[pp] == one);
                                assert(spec_partitions_view(parts@)[pp][kk] == one@[kk]@);
                            }
                        }
                    }
                    p = p + 1;
                }
                let ms = MemoryScan { schema: schema2, partitions: parts };
                Ok(ms)
            },
        }
    }
}

/// A projected, partitioned read plan over in-memory batches.
pub struct MemoryScan {
    pub schema: Schema,
    pub partitions: Vec<Vec<RecordBatch>>,
}

/// Mathematical model of a [`MemoryScan`].
#[verifier::ext_equal]
pub struct MemoryScanV {
    pub schema: SchemaV,
    pub partitions: Seq<Seq<RecordBatchV>>,
}

impl View for MemoryScan {
    type V = MemoryScanV;

    open spec fn view(&self) -> MemoryScanV {
        MemoryScanV {
            schema: self.schema@,
            partitions: spec_partitions_view(self.partitions@),
        }
    }
}

impl MemoryScan {
    /// The batches of one execution partition.
    pub fn partition(&self, i: usize) -> (r: &Vec<RecordBatch>)
        requires
            (i as int) < self@.partitions.len(),
        ensures
            r@.map_values(|b: RecordBatch| b@) == self@.partitions[i as int],
    {
        &self.partitions[i]
    }
}

} // verus!
