//! Row-count and per-column statistics.

use vstd::prelude::*;

use crate::scalar::{ScalarValue, ScalarValueV};

verus! {

/// Statistics known for one column.
pub struct ColumnStatistics {
    pub null_count: Option<usize>,
    pub max_value: Option<ScalarValue>,
    pub min_value: Option<ScalarValue>,
    pub distinct_count: Option<usize>,
}

/// Mathematical model of a [`ColumnStatistics`].
#[verifier::ext_equal]
pub struct ColumnStatisticsV {
    pub null_count: Option<usize>,
    pub max_value: Option<ScalarValueV>,
    pub min_value: Option<ScalarValueV>,
    pub distinct_count: Option<usize>,
}

impl View for ColumnStatistics {
    type V = ColumnStatisticsV;

    open spec fn view(&self) -> ColumnStatisticsV {
        ColumnStatisticsV {
            null_count: self.null_count,
            max_value: match self.max_value {
                Some(v) => Some(v@),
                None => None,
            },
            min_value: match self.min_value {
                Some(v) => Some(v@),
                None => None,
            },
            distinct_count: self.distinct_count,
        }
    }
}

/// The all-unknown column statistics, used where no detail is tracked.
pub open spec fn spec_unknown_column_statistics() -> ColumnStatisticsV {
    ColumnStatisticsV { null_count: None, max_value: None, min_value: None, distinct_count: None }
}

impl Default for ColumnStatistics {
    /// Column statistics with nothing known.
    fn default() -> (r: Self)
        ensures
            r@ == spec_unknown_column_statistics(),
    {
        ColumnStatistics { null_count: None, max_value: None, min_value: None, distinct_count: None }
    }
}

impl Clone for ColumnStatistics {
    fn clone(&self) -> (res: Self)
        ensures
            res@ == self@,
    {
        ColumnStatistics {
            null_count: self.null_count,
            max_value: match &self.max_value {
                Some(v) => Some(v.clone()),
                None => None,
            },
            min_value: match &self.min_value {
                Some(v) => Some(v.clone()),
                None => None,
            },
            distinct_count: self.distinct_count,
        }
    }
}

/// Statistics known for a whole dataset.
pub struct Statistics {
    /// Number of rows, when known.
    pub num_rows: Option<usize>,
    /// Total byte size of the source data, when known.
    pub total_byte_size: Option<usize>,
    /// Per-column statistics; when present, one entry per schema field.
    pub column_statistics: Option<Vec<ColumnStatistics>>,
    /// Whether the counts above are exact rather than estimates.
    pub is_exact: bool,
}

/// Mathematical model of a [`Statistics`].
#[verifier::ext_equal]
pub struct StatisticsV {
    pub num_rows: Option<usize>,
    pub total_byte_size: Option<usize>,
    pub column_statistics: Option<Seq<ColumnStatisticsV>>,
    pub is_exact: bool,
}

impl View for Statistics {
    type V = StatisticsV;

    open spec fn view(&self) -> StatisticsV {
        StatisticsV {
            num_rows: self.num_rows,
            total_byte_size: self.total_byte_size,
            column_statistics: match self.column_statistics {
                Some(cs) => Some(cs@.map_values(|c: ColumnStatistics| c@)),
                None => None,
            },
            is_exact: self.is_exact,
        }
    }
}

impl Default for Statistics {
    /// Statistics with nothing known and exactness unclaimed.
    fn default() -> (r: Self)
        ensures
            r@ == (StatisticsV {
                num_rows: None,
                total_byte_size: None,
                column_statistics: None,
                is_exact: false,
            }),
    {
        Statistics { num_rows: None, total_byte_size: None, column_statistics: None, is_exact: false }
    }
}

/// Copy of a per-column statistics list.
pub fn clone_column_statistics(cs: &Vec<ColumnStatistics>) -> (r: Vec<ColumnStatistics>)
    ensures
        r@.map_values(|c: ColumnStatistics| c@) == cs@.map_values(|c: ColumnStatistics| c@),
{
    let mut r: Vec<ColumnStatistics> = Vec::new();
    let mut i: usize = 0;
    while i < cs.len()
        invariant
            i <= cs.len(),
            r@.len() == i,
            forall|j: int| 0 <= j < i ==> r@[j]@ == cs@[j]@,
        decreases cs.len() - i,
    {
        r.push(cs[i].clone());
        i = i + 1;
    }
    proof {
        assert(r@.map_values(|c: ColumnStatistics| c@) =~= cs@.map_values(
            |c: ColumnStatistics| c@,
        ));
    }
    r
}

impl Clone for Statistics {
    fn clone(&self) -> (res: Self)
        ensures
            res@ == self@,
    {
        Statistics {
            num_rows: self.num_rows,
            total_byte_size: self.total_byte_size,
            column_statistics: match &self.column_statistics {
                Some(cs) => Some(clone_column_statistics(cs)),
                None => None,
            },
            is_exact: self.is_exact,
        }
    }
}

} // verus!
