//! Tests for the scan configuration's schema/statistics projection.

use scan_config::config::{
    wrap_partition_type_in_dict, wrap_partition_value_in_dict, FileScanConfig, SortKey,
};
use scan_config::scalar::ScalarValue;
use scan_config::schema::{DataType, Field, MetadataEntry, Schema};
use scan_config::stats::{ColumnStatistics, Statistics};

fn b(s: &str) -> Vec<u8> {
    s.as_bytes().to_vec()
}

fn field(name: &str, dt: DataType, nullable: bool) -> Field {
    Field::new(b(name), dt, nullable)
}

/// The thirteen-column schema used by the aggregate test fixtures.
fn aggr_test_schema() -> Schema {
    Schema::new(vec![
        field("c1", DataType::Utf8, false),
        field("c2", DataType::UInt32, false),
        field("c3", DataType::Int8, false),
        field("c4", DataType::Int16, false),
        field("c5", DataType::Int32, false),
        field("c6", DataType::Int64, false),
        field("c7", DataType::UInt8, false),
        field("c8", DataType::UInt16, false),
        field("c9", DataType::UInt32, false),
        field("c10", DataType::UInt64, false),
        field("c11", DataType::Float32, false),
        field("c12", DataType::Float64, false),
        field("c13", DataType::Utf8, false),
    ])
}

fn config_for_projection(
    file_schema: Schema,
    projection: Option<Vec<usize>>,
    statistics: Statistics,
    table_partition_cols: Vec<(Vec<u8>, DataType)>,
) -> FileScanConfig {
    FileScanConfig {
        object_store_url: b("test:///"),
        file_schema,
        file_groups: vec![vec![]],
        statistics,
        projection,
        limit: None,
        table_partition_cols,
        output_ordering: vec![],
        infinite_source: false,
    }
}

fn columns(schema: &Schema) -> Vec<Vec<u8>> {
    schema.fields.iter().map(|f| f.name.clone()).collect()
}

#[test]
fn physical_plan_config_no_projection() {
    let file_schema = aggr_test_schema();
    let n = file_schema.fields.len();
    let conf = config_for_projection(
        aggr_test_schema(),
        None,
        Statistics::default(),
        vec![(b("date"), wrap_partition_type_in_dict(DataType::Utf8))],
    );

    let (proj_schema, proj_statistics, _) = conf.project();
    assert!(proj_schema.fields.len() == n + 1);
    assert!(
        proj_schema.fields[n].name == b("date"),
        "partition columns are the last columns"
    );
    assert!(
        proj_statistics
            .column_statistics
            .expect("projection creates column statistics")
            .len()
            == n + 1
    );

    let col_names = conf.projected_file_column_names();
    assert!(col_names.is_none());

    let col_indices = conf.file_column_projection_indices();
    assert!(col_indices.is_none());
}

#[test]
fn physical_plan_config_with_projection() {
    let file_schema = aggr_test_schema();
    let n = file_schema.fields.len();
    let col_stats: Vec<ColumnStatistics> = (0..n)
        .map(|i| ColumnStatistics {
            null_count: None,
            max_value: None,
            min_value: None,
            distinct_count: Some(i),
        })
        .collect();
    let conf = config_for_projection(
        aggr_test_schema(),
        Some(vec![n, 0]),
        Statistics {
            num_rows: Some(10),
            total_byte_size: None,
            column_statistics: Some(col_stats),
            is_exact: false,
        },
        vec![(b("date"), wrap_partition_type_in_dict(DataType::Utf8))],
    );

    let (proj_schema, proj_statistics, _) = conf.project();
    assert!(columns(&proj_schema) == vec![b("date"), b("c1")]);
    let proj_stat_cols = proj_statistics
        .column_statistics
        .expect("projection creates column statistics");
    assert!(proj_stat_cols.len() == 2);
    assert!(proj_stat_cols[1].distinct_count == Some(0));

    let col_names = conf.projected_file_column_names();
    assert!(col_names == Some(vec![b("c1")]));

    let col_indices = conf.file_column_projection_indices();
    assert!(col_indices == Some(vec![0]));
}

#[test]
fn projection_keeps_row_count_and_resets_byte_size() {
    let conf = config_for_projection(
        Schema::new(vec![field("a", DataType::Int32, false)]),
        Some(vec![0]),
        Statistics {
            num_rows: Some(7),
            total_byte_size: Some(123),
            column_statistics: Some(vec![ColumnStatistics::default()]),
            is_exact: true,
        },
        vec![],
    );
    let (_, stats, _) = conf.project();
    assert!(stats.num_rows == Some(7));
    assert!(stats.is_exact);
    assert!(stats.total_byte_size.is_none());
}

#[test]
fn identity_projection_returns_inputs_unchanged() {
    let mut md = Vec::new();
    md.push(MetadataEntry { key: b("origin"), value: b("unit") });
    let schema = Schema::new_with_metadata(
        vec![field("a", DataType::Int32, false), field("z", DataType::Utf8, true)],
        md,
    );
    let orderings = vec![vec![
        SortKey { column_index: 1, descending: false, nulls_first: true },
        SortKey { column_index: 0, descending: true, nulls_first: false },
    ]];
    let conf = FileScanConfig {
        object_store_url: b("test:///"),
        file_schema: schema,
        file_groups: vec![],
        statistics: Statistics {
            num_rows: Some(3),
            total_byte_size: Some(64),
            column_statistics: None,
            is_exact: true,
        },
        projection: None,
        limit: None,
        table_partition_cols: vec![],
        output_ordering: orderings.clone(),
        infinite_source: false,
    };
    let (proj_schema, stats, ords) = conf.project();
    assert!(proj_schema.fields.len() == 2);
    assert!(proj_schema.fields[0].name == b("a"));
    assert!(proj_schema.fields[1].name == b("z"));
    assert!(proj_schema.metadata.len() == 1);
    assert!(proj_schema.metadata[0].key == b("origin"));
    assert!(stats.num_rows == Some(3));
    assert!(stats.total_byte_size == Some(64));
    assert!(stats.column_statistics.is_none());
    assert!(stats.is_exact);
    assert!(ords == orderings);
}

#[test]
fn projection_remaps_orderings_and_drops_vanished_keys() {
    let schema = Schema::new(vec![
        field("a", DataType::Int32, false),
        field("b", DataType::Int32, false),
        field("c", DataType::Int32, false),
    ]);
    let conf = FileScanConfig {
        object_store_url: b("test:///"),
        file_schema: schema,
        file_groups: vec![],
        statistics: Statistics::default(),
        projection: Some(vec![2, 0]),
        limit: None,
        table_partition_cols: vec![],
        output_ordering: vec![vec![
            SortKey { column_index: 2, descending: false, nulls_first: false },
            SortKey { column_index: 1, descending: true, nulls_first: true },
            SortKey { column_index: 0, descending: false, nulls_first: true },
        ]],
        infinite_source: false,
    };
    let (proj_schema, _, ords) = conf.project();
    assert!(columns(&proj_schema) == vec![b("c"), b("a")]);
    // Column 2 now sits at output position 0, column 0 at position 1, and
    // the key on the dropped column 1 is excluded.
    assert!(ords.len() == 1);
    assert!(
        ords[0]
            == vec![
                SortKey { column_index: 0, descending: false, nulls_first: false },
                SortKey { column_index: 1, descending: false, nulls_first: true },
            ]
    );
}

#[test]
fn wrapping_partition_types_and_values() {
    let t = wrap_partition_type_in_dict(DataType::Utf8);
    assert!(t == DataType::Dictionary(Box::new(DataType::UInt16), Box::new(DataType::Utf8)));
    let v = wrap_partition_value_in_dict(ScalarValue::Utf8(Some(b("2021"))));
    assert!(
        v == ScalarValue::Dictionary(
            Box::new(DataType::UInt16),
            Box::new(ScalarValue::Utf8(Some(b("2021")))),
        )
    );
}
