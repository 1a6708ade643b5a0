//! The scan configuration and its schema/statistics projection.
//!
//! A [`FileScanConfig`] gathers everything a format-specific reader needs
//! to scan a possibly partitioned, possibly multi-file dataset: the
//! file-native schema, the file groups, statistics, an optional projection,
//! synthesized partition columns, and output orderings. [`FileScanConfig::project`]
//! computes the schema, statistics and orderings of the scan's output.

use vstd::prelude::*;

use crate::bytes::clone_bytes;
use crate::repartition::PartitionedFile;
use crate::scalar::{ScalarValue, ScalarValueV};
use crate::schema::{
    clone_metadata, DataType, Field, FieldV, MetadataEntryV, Schema,
};
use crate::stats::{
    ColumnStatistics, ColumnStatisticsV, spec_unknown_column_statistics, Statistics, StatisticsV,
};

verus! {

/// Dictionary key type used for partition columns: 16-bit unsigned keys
/// trade a reasonable number of distinct partition values for space.
pub fn wrap_partition_type_in_dict(val_type: DataType) -> (r: DataType)
    ensures
        r == DataType::Dictionary(Box::new(DataType::UInt16), Box::new(val_type)),
{
    DataType::Dictionary(Box::new(DataType::UInt16), Box::new(val_type))
}

/// Wrap a partition value the same way [`wrap_partition_type_in_dict`]
/// wraps its type.
pub fn wrap_partition_value_in_dict(val: ScalarValue) -> (r: ScalarValue)
    ensures
        r@ == ScalarValueV::Dictionary(DataType::UInt16, Box::new(val@)),
{
    ScalarValue::Dictionary(Box::new(DataType::UInt16), Box::new(val))
}

/// One key of a lexicographic ordering, naming a source column by index.
#[derive(Clone, Copy, PartialEq, Eq, Structural)]
pub struct SortKey {
    /// Index of the sort column. In a configuration's `output_ordering`
    /// this indexes the combined source space: file columns first, then
    /// partition columns.
    pub column_index: usize,
    pub descending: bool,
    pub nulls_first: bool,
}

/// Index of the first occurrence of `src` in `proj`, if any.
pub open spec fn spec_position_of(proj: Seq<usize>, src: usize) -> Option<int>
    decreases proj.len(),
{
    if proj.len() == 0 {
        None
    } else if proj[0] == src {
        Some(0)
    } else {
        match spec_position_of(proj.skip(1), src) {
            Some(i) => Some(i + 1),
            None => None,
        }
    }
}

/// When `proj[i]` is the first occurrence of `src`, the search returns `i`.
pub proof fn lemma_position_of_at(proj: Seq<usize>, src: usize, i: int)
    requires
        0 <= i < proj.len(),
        proj[i] == src,
        forall|j: int| 0 <= j < i ==> proj[j] != src,
    ensures
        spec_position_of(proj, src) == Some(i),
    decreases i,
{
    if i > 0 {
        assert(proj[0] != src);
        assert(proj.skip(1)[i - 1] == proj[i]);
        assert forall|j: int| 0 <= j < i - 1 implies proj.skip(1)[j] != src by {
            assert(proj.skip(1)[j] == proj[j + 1]);
        }
        lemma_position_of_at(proj.skip(1), src, i - 1);
    }
}

/// When `src` does not occur in `proj`, the search returns nothing.
pub proof fn lemma_position_of_none(proj: Seq<usize>, src: usize)
    requires
        forall|j: int| 0 <= j < proj.len() ==> proj[j] != src,
    ensures
        spec_position_of(proj, src) is None,
    decreases proj.len(),
{
    if proj.len() > 0 {
        assert forall|j: int| 0 <= j < proj.skip(1).len() implies proj.skip(1)[j] != src by {
            assert(proj.skip(1)[j] == proj[j + 1]);
        }
        lemma_position_of_none(proj.skip(1), src);
    }
}

/// First position of `src` in `proj`, scanning from the front.
pub fn position_of(proj: &Vec<usize>, src: usize) -> (r: Option<usize>)
    ensures
        match r {
            Some(i) => spec_position_of(proj@, src) == Some(i as int) && i < proj@.len(),
            None => spec_position_of(proj@, src) is None,
        },
{
    let mut i: usize = 0;
    while i < proj.len()
        invariant
            i <= proj.len(),
            forall|j: int| 0 <= j < i ==> proj@[j] != src,
        decreases proj.len() - i,
    {
        if proj[i] == src {
            proof {
                lemma_position_of_at(proj@, src, i as int);
            }
            return Some(i);
        }
        i = i + 1;
    }
    proof {
        lemma_position_of_none(proj@, src);
    }
    None
}

/// A sort key remapped to output column positions; `None` when the
/// projection dropped its source column.
pub open spec fn spec_project_sort_key(k: SortKey, proj: Seq<usize>) -> Option<SortKey> {
    match spec_position_of(proj, k.column_index) {
        Some(j) => Some(
            SortKey { column_index: j as usize, descending: k.descending, nulls_first: k.nulls_first },
        ),
        None => None,
    }
}

/// An ordering remapped to output column positions; keys whose source
/// column was dropped are excluded.
pub open spec fn spec_project_ordering(ord: Seq<SortKey>, proj: Seq<usize>) -> Seq<SortKey>
    decreases ord.len(),
{
    if ord.len() == 0 {
        Seq::empty()
    } else {
        let front = spec_project_ordering(ord.drop_last(), proj);
        match spec_project_sort_key(ord.last(), proj) {
            Some(k) => front.push(k),
            None => front,
        }
    }
}

/// Unrolling step of [`spec_project_ordering`] over a prefix.
pub proof fn lemma_project_ordering_step(ord: Seq<SortKey>, proj: Seq<usize>, i: int)
    requires
        0 <= i < ord.len(),
    ensures
        spec_project_ordering(ord.take(i + 1), proj) == (match spec_project_sort_key(
            ord[i],
            proj,
        ) {
            Some(k) => spec_project_ordering(ord.take(i), proj).push(k),
            None => spec_project_ordering(ord.take(i), proj),
        }),
{
    let pre = ord.take(i + 1);
    assert(pre.drop_last() =~= ord.take(i));
    assert(pre.last() == ord[i]);
}

/// One ordering remapped through `proj`.
pub fn project_one_ordering(ord: &Vec<SortKey>, proj: &Vec<usize>) -> (r: Vec<SortKey>)
    ensures
        r@ == spec_project_ordering(ord@, proj@),
{
    let mut out: Vec<SortKey> = Vec::new();
    let mut i: usize = 0;
    while i < ord.len()
        invariant
            i <= ord.len(),
            out@ == spec_project_ordering(ord@.take(i as int), proj@),
        decreases ord.len() - i,
    {
        let k = ord[i];
        match position_of(proj, k.column_index) {
            Some(j) => {
                out.push(
                    SortKey {
                        column_index: j,
                        descending: k.descending,
                        nulls_first: k.nulls_first,
                    },
                );
            },
            None => {},
        }
        proof {
            lemma_project_ordering_step(ord@, proj@, i as int);
        }
        i = i + 1;
    }
    proof {
        assert(ord@.take(ord@.len() as int) =~= ord@);
    }
    out
}

/// All orderings remapped through `proj`.
pub fn project_orderings(ords: &Vec<Vec<SortKey>>, proj: &Vec<usize>) -> (r: Vec<Vec<SortKey>>)
    ensures
        r@.len() == ords@.len(),
        forall|i: int| 0 <= i < ords@.len() ==> r@[i]@ == spec_project_ordering(
            #[trigger] ords@[i]@,
            proj@,
        ),
{
    let mut out: Vec<Vec<SortKey>> = Vec::new();
    let mut i: usize = 0;
    while i < ords.len()
        invariant
            i <= ords.len(),
            out@.len() == i,
            forall|j: int| 0 <= j < i ==> out@[j]@ == spec_project_ordering(
                #[trigger] ords@[j]@,
                proj@,
            ),
        decreases ords.len() - i,
    {
        out.push(project_one_ordering(&ords[i], proj));
        i = i + 1;
    }
    out
}

/// The base configuration for scanning a file-backed dataset.
pub struct FileScanConfig {
    /// Location of the object store holding the files.
    pub object_store_url: Vec<u8>,
    /// Schema of the columns physically present in the files, excluding
    /// partition columns.
    pub file_schema: Schema,
    /// Files to process, grouped into execution partitions. Groups are
    /// read concurrently; files within a group sequentially.
    pub file_groups: Vec<Vec<PartitionedFile>>,
    /// Estimated statistics over the files.
    pub statistics: Statistics,
    /// Output columns, as indices into the combined source space: an
    /// index below the file schema's width selects a file column, a
    /// higher one selects a partition column by offset. `None` keeps the
    /// full width.
    pub projection: Option<Vec<usize>>,
    /// Cap on the number of rows to read, if any.
    pub limit: Option<usize>,
    /// Partition columns synthesized per file group, as `(name, type)`.
    pub table_partition_cols: Vec<(Vec<u8>, DataType)>,
    /// All equivalent lexicographic orderings of the source columns.
    pub output_ordering: Vec<Vec<SortKey>>,
    /// Whether this scan may produce an unbounded stream of records.
    pub infinite_source: bool,
}

impl FileScanConfig {
    /// Model of the partition column list.
    pub open spec fn spec_partition_cols(&self) -> Seq<(Seq<u8>, DataType)> {
        self.table_partition_cols@.map_values(|p: (Vec<u8>, DataType)| (p.0@, p.1))
    }

    /// Model of the projection.
    pub open spec fn spec_projection(&self) -> Option<Seq<usize>> {
        match self.projection {
            Some(p) => Some(p@),
            None => None,
        }
    }

    /// Model of the output orderings.
    pub open spec fn spec_output_ordering(&self) -> Seq<Seq<SortKey>> {
        self.output_ordering@.map_values(|o: Vec<SortKey>| o@)
    }

    /// Width of the combined source space: file columns then partition
    /// columns.
    pub open spec fn spec_total_width(&self) -> int {
        self.file_schema@.fields.len() + self.spec_partition_cols().len() as int
    }

    /// Whether projection is the identity fast path: no explicit
    /// projection and no partition columns.
    pub open spec fn spec_is_identity_projection(&self) -> bool {
        self.projection is None && self.table_partition_cols@.len() == 0
    }
}

/// The index list a projection stands for: the explicit list when given,
/// else the identity over the combined source space.
pub open spec fn spec_effective_projection(proj: Option<Seq<usize>>, total: int) -> Seq<usize>
    recommends
        0 <= total <= usize::MAX,
{
    match proj {
        Some(p) => p,
        None => Seq::new(total as nat, |i: int| i as usize),
    }
}

/// The output field selected by source index `idx`: a file column is
/// copied; a partition column becomes a non-nullable field of its
/// declared type.
pub open spec fn spec_projected_field(
    fields: Seq<FieldV>,
    pcols: Seq<(Seq<u8>, DataType)>,
    idx: usize,
) -> FieldV
    recommends
        idx < fields.len() + pcols.len(),
{
    if (idx as int) < fields.len() {
        fields[idx as int]
    } else {
        FieldV {
            name: pcols[idx - fields.len()].0,
            data_type: pcols[idx - fields.len()].1,
            nullable: false,
            dict_id: 0,
            dict_is_ordered: false,
            metadata: Seq::<MetadataEntryV>::empty(),
        }
    }
}

/// The output column statistics selected by source index `idx`: a file
/// column's entry is copied when the input tracks column detail; partition
/// columns and untracked file columns get the all-unknown entry.
pub open spec fn spec_projected_col_stats(
    cstats: Option<Seq<ColumnStatisticsV>>,
    nf: int,
    idx: usize,
) -> ColumnStatisticsV {
    if (idx as int) < nf {
        match cstats {
            Some(cs) => cs[idx as int],
            None => spec_unknown_column_statistics(),
        }
    } else {
        spec_unknown_column_statistics()
    }
}

impl FileScanConfig {
    /// Project the schema, the statistics and the orderings onto the
    /// configured column indices.
    ///
    /// Without a projection and without partition columns this is the
    /// identity: schema, statistics and orderings are returned unchanged.
    /// Otherwise the output schema has one field per effective index, in
    /// order, each the field that index selects; column statistics follow
    /// the same selection; row count and exactness carry over while the
    /// total byte size is reset to unknown (narrowing columns invalidates
    /// it); the schema metadata carries over; and each ordering is
    /// remapped to output positions, dropping keys whose source column
    /// was projected away.
    pub fn project(&self) -> (r: (Schema, Statistics, Vec<Vec<SortKey>>))
        requires
            self.spec_total_width() <= usize::MAX,
            match self.spec_projection() {
                Some(p) => forall|i: int|
                    0 <= i < p.len() ==> (#[trigger] p[i] as int) < self.spec_total_width(),
                None => true,
            },
            match self.statistics@.column_statistics {
                Some(cs) => cs.len() == self.file_schema@.fields.len(),
                None => true,
            },
        ensures
            self.spec_is_identity_projection() ==> {
                &&& r.0@ == self.file_schema@
                &&& r.1@ == self.statistics@
                &&& r.2@.map_values(|o: Vec<SortKey>| o@) == self.spec_output_ordering()
            },
            !self.spec_is_identity_projection() ==> {
                let eff = spec_effective_projection(
                    self.spec_projection(),
                    self.spec_total_width(),
                );
                let nf = self.file_schema@.fields.len() as int;
                &&& r.0@.fields.len() == eff.len()
                &&& forall|i: int|
                    0 <= i < eff.len() ==> r.0@.fields[i] == spec_projected_field(
                        self.file_schema@.fields,
                        self.spec_partition_cols(),
                        #[trigger] eff[i],
                    )
                &&& r.0@.metadata == self.file_schema@.metadata
                &&& r.1@.num_rows == self.statistics@.num_rows
                &&& r.1@.is_exact == self.statistics@.is_exact
                &&& r.1@.total_byte_size is None
                &&& r.1@.column_statistics matches Some(cs) && cs.len() == eff.len() && forall|
                    i: int,
                |
                    0 <= i < eff.len() ==> cs[i] == spec_projected_col_stats(
                        self.statistics@.column_statistics,
                        nf,
                        #[trigger] eff[i],
                    )
                &&& r.2@.len() == self.spec_output_ordering().len()
                &&& forall|i: int|
                    0 <= i < self.spec_output_ordering().len() ==> r.2@[i]@
                        == spec_project_ordering(#[trigger] self.output_ordering@[i]@, eff)
            },
    {
        let nf = self.file_schema.fields.len();
        let np = self.table_partition_cols.len();

        if self.projection.is_none() && np == 0 {
            let schema = self.file_schema.clone();
            let stats = self.statistics.clone();
            let mut ords: Vec<Vec<SortKey>> = Vec::new();
            let mut i: usize = 0;
            while i < self.output_ordering.len()
                invariant
                    i <= self.output_ordering.len(),
                    ords@.len() == i,
                    forall|j: int| 0 <= j < i ==> ords@[j]@ == self.output_ordering@[j]@,
                decreases self.output_ordering.len() - i,
            {
                ords.push(clone_sort_keys(&self.output_ordering[i]));
                i = i + 1;
            }
            proof {
                assert(ords@.map_values(|o: Vec<SortKey>| o@) =~= self.spec_output_ordering());
            }
            return (schema, stats, ords);
        }

        // Effective index list.
        let mut eff: Vec<usize> = Vec::new();
        match &self.projection {
            Some(p) => {
                let mut i: usize = 0;
                while i < p.len()
                    invariant
                        i <= p.len(),
                        eff@ == p@.take(i as int),
                    decreases p.len() - i,
                {
                    eff.push(p[i]);
                    i = i + 1;
                    proof {
                        assert(eff@ =~= p@.take(i as int));
                    }
                }
                proof {
                    assert(p@.take(p@.len() as int) =~= p@);
                }
            },
            None => {
                let total = nf + np;
                let mut i: usize = 0;
                while i < total
                    invariant
                        i <= total,
                        total == self.spec_total_width(),
                        eff@.len() == i,
                        forall|j: int| 0 <= j < i ==> eff@[j] == j as usize,
                    decreases total - i,
                {
                    eff.push(i);
                    i = i + 1;
                }
                proof {
                    assert(eff@ =~= spec_effective_projection(
                        self.spec_projection(),
                        self.spec_total_width(),
                    ));
                }
            },
        }
        let ghost effs = spec_effective_projection(self.spec_projection(), self.spec_total_width());
        proof {
            assert(eff@ == effs);
        }

        let mut table_fields: Vec<Field> = Vec::new();
        let mut table_cols_stats: Vec<ColumnStatistics> = Vec::new();
        let mut k: usize = 0;
        while k < eff.len()
            invariant
                k <= eff.len(),
                eff@ == effs,
                nf == self.file_schema@.fields.len(),
                np == self.spec_partition_cols().len(),
                forall|i: int| 0 <= i < effs.len() ==> (#[trigger] effs[i] as int) < nf + np,
                match self.statistics@.column_statistics {
                    Some(cs) => cs.len() == nf,
                    None => true,
                },
                table_fields@.len() == k,
                forall|j: int|
                    0 <= j < k ==> table_fields@[j]@ == spec_projected_field(
                        self.file_schema@.fields,
                        self.spec_partition_cols(),
                        #[trigger] effs[j],
                    ),
                table_cols_stats@.len() == k,
                forall|j: int|
                    0 <= j < k ==> table_cols_stats@[j]@ == spec_projected_col_stats(
                        self.statistics@.column_statistics,
                        nf as int,
                        #[trigger] effs[j],
                    ),
            decreases eff.len() - k,
        {
            let idx = eff[k];
            if idx < nf {
                proof {
                    assert(self.file_schema.fields@[idx as int]@ == self.file_schema@.fields[
                        idx as int
                    ]);
                }
                table_fields.push(self.file_schema.fields[idx].clone());
                match &self.statistics.column_statistics {
                    Some(cs) => {
                        proof {
                            assert(cs@[idx as int]@ == self.statistics@.column_statistics.unwrap()[
                                idx as int
                            ]);
                        }
                        table_cols_stats.push(cs[idx].clone());
                    },
                    None => {
                        table_cols_stats.push(ColumnStatistics::default());
                    },
                }
            } else {
                let pidx = idx - nf;
                proof {
                    assert(self.spec_partition_cols()[pidx as int] == (
                        self.table_partition_cols@[pidx as int].0@,
                        self.table_partition_cols@[pidx as int].1,
                    ));
                }
                let name = clone_bytes(&self.table_partition_cols[pidx].0);
                let dt = self.table_partition_cols[pidx].1.clone();
                table_fields.push(Field::new(name, dt, false));
                table_cols_stats.push(ColumnStatistics::default());
            }
            k = k + 1;
        }

        let table_stats = Statistics {
            num_rows: self.statistics.num_rows,
            total_byte_size: None,
            column_statistics: Some(table_cols_stats),
            is_exact: self.statistics.is_exact,
        };
        let table_schema = Schema::new_with_metadata(
            table_fields,
            clone_metadata(&self.file_schema.metadata),
        );
        let orderings = project_orderings(&self.output_ordering, &eff);
        proof {
            assert(table_schema@.fields.len() == effs.len());
            assert(forall|i: int|
                0 <= i < effs.len() ==> table_schema@.fields[i] == spec_projected_field(
                    self.file_schema@.fields,
                    self.spec_partition_cols(),
                    #[trigger] effs[i],
                ));
        }
        (table_schema, table_stats, orderings)
    }

    /// Names of the file columns the projection keeps, in projection
    /// order; `None` when no projection is set.
    pub fn projected_file_column_names(&self) -> (r: Option<Vec<Vec<u8>>>)
        requires
            match self.spec_projection() {
                Some(p) => forall|i: int|
                    0 <= i < p.len() ==> (#[trigger] p[i] as int) < self.spec_total_width(),
                None => true,
            },
        ensures
            match self.spec_projection() {
                None => r is None,
                Some(p) => r matches Some(names) && names@.map_values(|n: Vec<u8>| n@)
                    == spec_kept_file_indices(p, self.file_schema@.fields.len() as int).map_values(
                    spec_field_name_of(self.file_schema@.fields),
                ),
            },
    {
        let nf = self.file_schema.fields.len();
        match &self.projection {
            None => None,
            Some(p) => {
                let mut names: Vec<Vec<u8>> = Vec::new();
                let mut i: usize = 0;
                proof {
                    assert(self.spec_projection() == Some(p@));
                    assert forall|j: int| 0 <= j < p@.len() implies (#[trigger] p@[j] as int)
                        < self.spec_total_width() by {
                        assert(self.spec_projection().unwrap()[j] == p@[j]);
                    }
                    assert(p@.take(0) =~= Seq::<usize>::empty());
                    assert(spec_kept_file_indices(p@.take(0), nf as int) =~= Seq::<usize>::empty());
                    assert(names@.map_values(|n: Vec<u8>| n@) =~= spec_kept_file_indices(
                        p@.take(0),
                        nf as int,
                    ).map_values(spec_field_name_of(self.file_schema@.fields)));
                }
                while i < p.len()
                    invariant
                        i <= p.len(),
                        nf == self.file_schema@.fields.len(),
                        forall|j: int|
                            0 <= j < p@.len() ==> (#[trigger] p@[j] as int)
                                < self.spec_total_width(),
                        names@.map_values(|n: Vec<u8>| n@) == spec_kept_file_indices(
                            p@.take(i as int),
                            nf as int,
                        ).map_values(spec_field_name_of(self.file_schema@.fields)),
                    decreases p.len() - i,
                {
                    proof {
                        lemma_kept_file_indices_step(p@, nf as int, i as int);
                    }
                    let idx = p[i];
                    if idx < nf {
                        proof {
                            assert(self.file_schema.fields@[idx as int]@
                                == self.file_schema@.fields[idx as int]);
                        }
                        names.push(clone_bytes(&self.file_schema.fields[idx].name));
                        proof {
                            let f = spec_field_name_of(self.file_schema@.fields);
                            let base = spec_kept_file_indices(p@.take(i as int), nf as int);
                            assert(spec_kept_file_indices(p@.take(i + 1), nf as int) == base.push(
                                idx,
                            ));
                            assert(f(idx) == self.file_schema@.fields[idx as int].name);
                            assert(base.push(idx).map_values(f) =~= base.map_values(f).push(
                                f(idx),
                            ));
                            assert(names@.map_values(|n: Vec<u8>| n@) =~= base.map_values(f).push(
                                f(idx),
                            ));
                        }
                    } else {
                        proof {
                            assert(names@.map_values(|n: Vec<u8>| n@) =~= spec_kept_file_indices(
                                p@.take(i + 1),
                                nf as int,
                            ).map_values(spec_field_name_of(self.file_schema@.fields)));
                        }
                    }
                    i = i + 1;
                }
                proof {
                    assert(p@.take(p@.len() as int) =~= p@);
                }
                Some(names)
            },
        }
    }

    /// The projection restricted to file columns; `None` when no
    /// projection is set.
    pub fn file_column_projection_indices(&self) -> (r: Option<Vec<usize>>)
        ensures
            match self.spec_projection() {
                None => r is None,
                Some(p) => r matches Some(idxs) && idxs@ == spec_kept_file_indices(
                    p,
                    self.file_schema@.fields.len() as int,
                ),
            },
    {
        let nf = self.file_schema.fields.len();
        match &self.projection {
            None => None,
            Some(p) => {
                let mut idxs: Vec<usize> = Vec::new();
                let mut i: usize = 0;
                proof {
                    assert(p@.take(0) =~= Seq::<usize>::empty());
                    assert(spec_kept_file_indices(p@.take(0), nf as int) =~= Seq::<usize>::empty());
                }
                while i < p.len()
                    invariant
                        i <= p.len(),
                        nf == self.file_schema@.fields.len(),
                        idxs@ == spec_kept_file_indices(p@.take(i as int), nf as int),
                    decreases p.len() - i,
                {
                    proof {
                        lemma_kept_file_indices_step(p@, nf as int, i as int);
                    }
                    let idx = p[i];
                    if idx < nf {
                        idxs.push(idx);
                    }
                    i = i + 1;
                }
                proof {
                    assert(p@.take(p@.len() as int) =~= p@);
                }
                Some(idxs)
            },
        }
    }
}

/// The projection indices that address file columns (those below `nf`).
pub open spec fn spec_kept_file_indices(proj: Seq<usize>, nf: int) -> Seq<usize> {
    proj.filter(|idx: usize| (idx as int) < nf)
}

/// Unrolling step of [`spec_kept_file_indices`] over a prefix.
pub proof fn lemma_kept_file_indices_step(proj: Seq<usize>, nf: int, i: int)
    requires
        0 <= i < proj.len(),
    ensures
        spec_kept_file_indices(proj.take(i + 1), nf) == (if (proj[i] as int) < nf {
            spec_kept_file_indices(proj.take(i), nf).push(proj[i])
        } else {
            spec_kept_file_indices(proj.take(i), nf)
        }),
{
    let pre = proj.take(i + 1);
    assert(pre.drop_last() =~= proj.take(i));
    assert(pre.last() == proj[i]);
    reveal_with_fuel(Seq::filter, 2);
}

/// The name of field `idx` of `fields`.
pub open spec fn spec_field_name_of(fields: Seq<FieldV>) -> spec_fn(usize) -> Seq<u8> {
    |idx: usize| fields[idx as int].name
}

/// Copy of a sort-key list.
pub fn clone_sort_keys(ord: &Vec<SortKey>) -> (r: Vec<SortKey>)
    ensures
        r@ == ord@,
{
    let mut r: Vec<SortKey> = Vec::new();
    let mut i: usize = 0;
    while i < ord.len()
        invariant
            i <= ord.len(),
            r@ == ord@.take(i as int),
        decreases ord.len() - i,
    {
        r.push(ord[i]);
        i = i + 1;
        proof {
            assert(r@ =~= ord@.take(i as int));
        }
    }
    proof {
        assert(ord@.take(ord@.len() as int) =~= ord@);
    }
    r
}

} // verus!
