//! Tests for scanning an in-memory table with and without a projection.

use scan_config::batch::{ColumnArray, RecordBatch};
use scan_config::error::ScanError;
use scan_config::memtable::MemTable;
use scan_config::scalar::ScalarValue;
use scan_config::schema::{DataType, Field, Schema};

fn b(s: &str) -> Vec<u8> {
    s.as_bytes().to_vec()
}

fn field(name: &str, dt: DataType, nullable: bool) -> Field {
    Field::new(b(name), dt, nullable)
}

fn int32_col(vals: Vec<Option<i32>>) -> ColumnArray {
    ColumnArray::Plain {
        data_type: DataType::Int32,
        values: vals.iter().map(|v| ScalarValue::Int32(*v)).collect(),
    }
}

#[test]
fn test_with_projection() {
    let schema = Schema::new(vec![
        field("a", DataType::Int32, false),
        field("b", DataType::Int32, false),
        field("c", DataType::Int32, false),
        field("d", DataType::Int32, true),
    ]);
    let batch = RecordBatch::try_new(
        schema,
        vec![
            int32_col(vec![Some(1), Some(2), Some(3)]),
            int32_col(vec![Some(4), Some(5), Some(6)]),
            int32_col(vec![Some(7), Some(8), Some(9)]),
            int32_col(vec![None, None, Some(9)]),
        ],
    )
    .unwrap();

    let schema = Schema::new(vec![
        field("a", DataType::Int32, false),
        field("b", DataType::Int32, false),
        field("c", DataType::Int32, false),
        field("d", DataType::Int32, true),
    ]);
    let provider = MemTable::try_new(schema, vec![vec![batch]]).unwrap();

    let scan = provider.scan(Some(&vec![2, 1])).unwrap();
    let batch2 = &scan.partition(0)[0];
    assert!(batch2.schema.fields.len() == 2);
    assert!(batch2.schema.fields[0].name == b("c"));
    assert!(batch2.schema.fields[1].name == b("b"));
    assert!(batch2.num_columns() == 2);
    assert!(batch2.columns[0].value_at(0) == ScalarValue::Int32(Some(7)));
    assert!(batch2.columns[1].value_at(2) == ScalarValue::Int32(Some(6)));
}

#[test]
fn test_without_projection() {
    let schema = Schema::new(vec![
        field("a", DataType::Int32, false),
        field("b", DataType::Int32, false),
        field("c", DataType::Int32, false),
    ]);
    let batch = RecordBatch::try_new(
        schema,
        vec![
            int32_col(vec![Some(1), Some(2), Some(3)]),
            int32_col(vec![Some(4), Some(5), Some(6)]),
            int32_col(vec![Some(7), Some(8), Some(9)]),
        ],
    )
    .unwrap();

    let schema = Schema::new(vec![
        field("a", DataType::Int32, false),
        field("b", DataType::Int32, false),
        field("c", DataType::Int32, false),
    ]);
    let provider = MemTable::try_new(schema, vec![vec![batch]]).unwrap();

    let scan = provider.scan(None).unwrap();
    let batch1 = &scan.partition(0)[0];
    assert!(batch1.schema.fields.len() == 3);
    assert!(batch1.num_columns() == 3);
}

#[test]
fn test_invalid_projection() {
    let schema = Schema::new(vec![
        field("a", DataType::Int32, false),
        field("b", DataType::Int32, false),
        field("c", DataType::Int32, false),
    ]);
    let batch = RecordBatch::try_new(
        schema,
        vec![
            int32_col(vec![Some(1), Some(2), Some(3)]),
            int32_col(vec![Some(4), Some(5), Some(6)]),
            int32_col(vec![Some(7), Some(8), Some(9)]),
        ],
    )
    .unwrap();

    let schema = Schema::new(vec![
        field("a", DataType::Int32, false),
        field("b", DataType::Int32, false),
        field("c", DataType::Int32, false),
    ]);
    let provider = MemTable::try_new(schema, vec![vec![batch]]).unwrap();

    let projection: Vec<usize> = vec![0, 4];
    match provider.scan(Some(&projection)) {
        Err(e) => {
            assert!(matches!(e, ScanError::ProjectIndexOutOfBounds { index: 4, max_field: 3 }));
        },
        res => panic!("Scan should have failed on an invalid projection, got {:?}", res.is_ok()),
    }
}

#[test]
fn batch_rejects_unequal_row_counts() {
    let schema = Schema::new(vec![
        field("a", DataType::Int32, false),
        field("b", DataType::Int32, false),
    ]);
    let r = RecordBatch::try_new(
        schema,
        vec![int32_col(vec![Some(1), Some(2)]), int32_col(vec![Some(3)])],
    );
    assert!(matches!(r, Err(ScanError::RowCountMismatch { expected: 2, actual: 1 })));
}

#[test]
fn batch_rejects_wrong_column_count() {
    let schema = Schema::new(vec![
        field("a", DataType::Int32, false),
        field("b", DataType::Int32, false),
    ]);
    let r = RecordBatch::try_new(schema, vec![int32_col(vec![Some(1)])]);
    assert!(matches!(r, Err(ScanError::BatchWidthMismatch { expected: 2, actual: 1 })));
}
