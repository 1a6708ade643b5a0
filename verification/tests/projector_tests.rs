//! Tests for the partition column projector and its zero-buffer cache.

use scan_config::batch::{ColumnArray, RecordBatch};
use scan_config::config::{
    wrap_partition_type_in_dict, wrap_partition_value_in_dict, FileScanConfig,
};
use scan_config::error::ScanError;
use scan_config::projector::{PartitionColumnProjector, ZeroBufferCache};
use scan_config::scalar::ScalarValue;
use scan_config::schema::{DataType, Field, Schema};
use scan_config::stats::Statistics;

fn b(s: &str) -> Vec<u8> {
    s.as_bytes().to_vec()
}

fn field(name: &str, dt: DataType, nullable: bool) -> Field {
    Field::new(b(name), dt, nullable)
}

/// A three-column batch of 32-bit integers, as a file reader would hand
/// it over.
fn build_table_i32(a: (&str, &Vec<i32>), bb: (&str, &Vec<i32>), c: (&str, &Vec<i32>)) -> RecordBatch {
    let schema = Schema::new(vec![
        field(a.0, DataType::Int32, false),
        field(bb.0, DataType::Int32, false),
        field(c.0, DataType::Int32, false),
    ]);
    let col = |vals: &Vec<i32>| ColumnArray::Plain {
        data_type: DataType::Int32,
        values: vals.iter().map(|v| ScalarValue::Int32(Some(*v))).collect(),
    };
    RecordBatch::try_new(schema, vec![col(a.1), col(bb.1), col(c.1)]).unwrap()
}

fn config_for_projection(
    file_schema: Schema,
    projection: Option<Vec<usize>>,
    statistics: Statistics,
    table_partition_cols: Vec<(Vec<u8>, DataType)>,
) -> FileScanConfig {
    FileScanConfig {
        object_store_url: b("test:///"),
        file_schema,
        file_groups: vec![vec![]],
        statistics,
        projection,
        limit: None,
        table_partition_cols,
        output_ordering: vec![],
        infinite_source: false,
    }
}

fn dict_utf8(s: &str) -> ScalarValue {
    wrap_partition_value_in_dict(ScalarValue::Utf8(Some(b(s))))
}

fn assert_i32_column(batch: &RecordBatch, col: usize, expected: &[i32]) {
    assert!(batch.num_rows() == expected.len());
    for (row, want) in expected.iter().enumerate() {
        let got = batch.columns[col].value_at(row);
        assert!(got == ScalarValue::Int32(Some(*want)));
    }
}

fn assert_utf8_column(batch: &RecordBatch, col: usize, expected: &str) {
    for row in 0..batch.num_rows() {
        let got = batch.columns[col].value_at(row);
        assert!(got == ScalarValue::Utf8(Some(b(expected))));
    }
}

fn year_month_day() -> Vec<(Vec<u8>, DataType)> {
    vec![
        (b("year"), wrap_partition_type_in_dict(DataType::Utf8)),
        (b("month"), wrap_partition_type_in_dict(DataType::Utf8)),
        (b("day"), wrap_partition_type_in_dict(DataType::Utf8)),
    ]
}

#[test]
fn partition_column_projector() {
    let file_batch = build_table_i32(
        ("a", &vec![0, 1, 2]),
        ("b", &vec![-2, -1, 0]),
        ("c", &vec![10, 11, 12]),
    );
    let partition_cols = year_month_day();
    // Keep all three file columns and two of the partitioning columns,
    // dropping `month`.
    let conf = config_for_projection(
        Schema::new(file_batch.schema.fields.iter().map(|f| f.clone()).collect()),
        Some(vec![0, 1, 2, 3, 5]),
        Statistics::default(),
        partition_cols.clone(),
    );
    let (proj_schema, _, _) = conf.project();
    let names: Vec<Vec<u8>> = partition_cols.iter().map(|p| p.0.clone()).collect();
    let mut proj = PartitionColumnProjector::new(proj_schema, &names);

    // First batch.
    let projected_batch = proj
        .project(file_batch, &vec![dict_utf8("2021"), dict_utf8("10"), dict_utf8("26")])
        .expect("Projection of partition columns into record batch failed");
    assert!(projected_batch.num_columns() == 5);
    assert!(projected_batch.schema.fields[3].name == b("year"));
    assert!(projected_batch.schema.fields[4].name == b("day"));
    assert_i32_column(&projected_batch, 0, &[0, 1, 2]);
    assert_i32_column(&projected_batch, 1, &[-2, -1, 0]);
    assert_i32_column(&projected_batch, 2, &[10, 11, 12]);
    assert_utf8_column(&projected_batch, 3, "2021");
    assert_utf8_column(&projected_batch, 4, "26");

    // A larger batch than the previous one.
    let file_batch = build_table_i32(
        ("a", &vec![5, 6, 7, 8, 9]),
        ("b", &vec![-10, -9, -8, -7, -6]),
        ("c", &vec![12, 13, 14, 15, 16]),
    );
    let projected_batch = proj
        .project(file_batch, &vec![dict_utf8("2021"), dict_utf8("10"), dict_utf8("27")])
        .expect("Projection of partition columns into record batch failed");
    assert_i32_column(&projected_batch, 0, &[5, 6, 7, 8, 9]);
    assert_i32_column(&projected_batch, 1, &[-10, -9, -8, -7, -6]);
    assert_i32_column(&projected_batch, 2, &[12, 13, 14, 15, 16]);
    assert_utf8_column(&projected_batch, 3, "2021");
    assert_utf8_column(&projected_batch, 4, "27");

    // A smaller batch than the previous one.
    let file_batch = build_table_i32(
        ("a", &vec![0, 1, 3]),
        ("b", &vec![2, 3, 4]),
        ("c", &vec![4, 5, 6]),
    );
    let projected_batch = proj
        .project(file_batch, &vec![dict_utf8("2021"), dict_utf8("10"), dict_utf8("28")])
        .expect("Projection of partition columns into record batch failed");
    assert_i32_column(&projected_batch, 0, &[0, 1, 3]);
    assert_i32_column(&projected_batch, 1, &[2, 3, 4]);
    assert_i32_column(&projected_batch, 2, &[4, 5, 6]);
    assert_utf8_column(&projected_batch, 3, "2021");
    assert_utf8_column(&projected_batch, 4, "28");

    // A value the caller forgot to dictionary-wrap is auto-wrapped.
    let file_batch = build_table_i32(
        ("a", &vec![0, 1, 2]),
        ("b", &vec![-2, -1, 0]),
        ("c", &vec![10, 11, 12]),
    );
    let projected_batch = proj
        .project(
            file_batch,
            &vec![
                ScalarValue::Utf8(Some(b("2021"))),
                ScalarValue::Utf8(Some(b("10"))),
                ScalarValue::Utf8(Some(b("26"))),
            ],
        )
        .expect("Projection of partition columns into record batch failed");
    assert_i32_column(&projected_batch, 0, &[0, 1, 2]);
    assert_i32_column(&projected_batch, 1, &[-2, -1, 0]);
    assert_i32_column(&projected_batch, 2, &[10, 11, 12]);
    assert_utf8_column(&projected_batch, 3, "2021");
    assert_utf8_column(&projected_batch, 4, "26");
}

#[test]
fn projector_rejects_wrong_batch_width() {
    let partition_cols = year_month_day();
    let conf = config_for_projection(
        Schema::new(vec![
            field("a", DataType::Int32, false),
            field("b", DataType::Int32, false),
            field("c", DataType::Int32, false),
        ]),
        Some(vec![0, 1, 2, 3, 5]),
        Statistics::default(),
        partition_cols.clone(),
    );
    let (proj_schema, _, _) = conf.project();
    let names: Vec<Vec<u8>> = partition_cols.iter().map(|p| p.0.clone()).collect();
    let mut proj = PartitionColumnProjector::new(proj_schema, &names);

    // A batch with two columns where three file columns are expected.
    let schema = Schema::new(vec![
        field("a", DataType::Int32, false),
        field("b", DataType::Int32, false),
    ]);
    let col = ColumnArray::Plain {
        data_type: DataType::Int32,
        values: vec![ScalarValue::Int32(Some(1))],
    };
    let narrow = RecordBatch::try_new(schema, vec![col.clone(), col]).unwrap();
    match proj.project(narrow, &vec![dict_utf8("2021"), dict_utf8("10"), dict_utf8("26")]) {
        Err(err) => {
            assert!(matches!(err, ScanError::BatchWidthMismatch { expected: 3, actual: 2 }));
        },
        Ok(_) => panic!("a batch of the wrong width must be rejected"),
    }
}

#[test]
fn zero_buffer_cache_reuses_and_grows() {
    let mut cache = ZeroBufferCache::new();
    // Slot 5 serves 16-bit unsigned keys, two bytes per row.
    let b1 = cache.get_buffer(5, 6);
    assert!(b1.len() == 6 && b1.iter().all(|x| *x == 0));
    assert!(cache.slots[5].as_ref().unwrap().len() == 6);
    // A larger request replaces the cached buffer.
    let b2 = cache.get_buffer(5, 10);
    assert!(b2.len() == 10 && b2.iter().all(|x| *x == 0));
    assert!(cache.slots[5].as_ref().unwrap().len() == 10);
    // A smaller request is served from the cache without shrinking it.
    let b3 = cache.get_buffer(5, 6);
    assert!(b3.len() == 6 && b3.iter().all(|x| *x == 0));
    assert!(cache.slots[5].as_ref().unwrap().len() == 10);
    // Other slots are untouched.
    assert!(cache.slots[0].is_none());
}

#[test]
fn projector_cache_survives_batches_of_varying_size() {
    let partition_cols = year_month_day();
    let conf = config_for_projection(
        Schema::new(vec![
            field("a", DataType::Int32, false),
            field("b", DataType::Int32, false),
            field("c", DataType::Int32, false),
        ]),
        Some(vec![0, 1, 2, 3, 5]),
        Statistics::default(),
        partition_cols.clone(),
    );
    let (proj_schema, _, _) = conf.project();
    let names: Vec<Vec<u8>> = partition_cols.iter().map(|p| p.0.clone()).collect();
    let mut proj = PartitionColumnProjector::new(proj_schema, &names);

    let batch_of = |n: i32| {
        let vals: Vec<i32> = (0..n).collect();
        build_table_i32(("a", &vals), ("b", &vals), ("c", &vals))
    };
    let values = vec![dict_utf8("2021"), dict_utf8("10"), dict_utf8("26")];

    proj.project(batch_of(3), &values).unwrap();
    // UInt16 keys: three rows fill six bytes.
    assert!(proj.key_buffer_cache.slots[5].as_ref().unwrap().len() == 6);
    proj.project(batch_of(5), &values).unwrap();
    assert!(proj.key_buffer_cache.slots[5].as_ref().unwrap().len() == 10);
    let out = proj.project(batch_of(3), &values).unwrap();
    // The cache never hands out a buffer smaller than asked, and keeps
    // the largest buffer seen.
    assert!(proj.key_buffer_cache.slots[5].as_ref().unwrap().len() == 10);
    match &out.columns[3] {
        ColumnArray::Dictionary { keys, .. } => assert!(keys.len() == 6),
        _ => panic!("partition column should be dictionary encoded"),
    }
}

#[test]
fn dictionary_keys_decode_little_endian() {
    // Two Int8 keys indexing a two-value dictionary.
    let col = ColumnArray::Dictionary {
        key_type: DataType::Int8,
        keys: vec![1, 0],
        values: Box::new(ColumnArray::Plain {
            data_type: DataType::Int32,
            values: vec![ScalarValue::Int32(Some(10)), ScalarValue::Int32(Some(20))],
        }),
    };
    assert!(col.rows() == 2);
    assert!(col.value_at(0) == ScalarValue::Int32(Some(20)));
    assert!(col.value_at(1) == ScalarValue::Int32(Some(10)));

    // A two-byte little-endian key: 0x0001 stored as [1, 0].
    let wide = ColumnArray::Dictionary {
        key_type: DataType::UInt16,
        keys: vec![1, 0, 0, 0],
        values: Box::new(ColumnArray::Plain {
            data_type: DataType::Utf8,
            values: vec![
                ScalarValue::Utf8(Some(b("zero"))),
                ScalarValue::Utf8(Some(b("one"))),
            ],
        }),
    };
    assert!(wide.rows() == 2);
    assert!(wide.value_at(0) == ScalarValue::Utf8(Some(b("one"))));
    assert!(wide.value_at(1) == ScalarValue::Utf8(Some(b("zero"))));
}
