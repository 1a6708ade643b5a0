//! Tests for the schema compatibility matcher and the in-memory table.

use scan_config::batch::{ColumnArray, RecordBatch};
use scan_config::contains::{arg, field_contains, fun, is_call, is_qualified, normalized, schema_contains, unqualifify};
use scan_config::error::ScanError;
use scan_config::memtable::MemTable;
use scan_config::scalar::ScalarValue;
use scan_config::schema::{DataType, Field, MetadataEntry, Schema};

fn b(s: &str) -> Vec<u8> {
    s.as_bytes().to_vec()
}

fn field(name: &str, dt: DataType, nullable: bool) -> Field {
    Field::new(b(name), dt, nullable)
}

fn int32_batch(schema: Schema, cols: Vec<Vec<i32>>) -> RecordBatch {
    let columns = cols
        .iter()
        .map(|vals| ColumnArray::Plain {
            data_type: DataType::Int32,
            values: vals.iter().map(|v| ScalarValue::Int32(Some(*v))).collect(),
        })
        .collect();
    RecordBatch::try_new(schema, columns).unwrap()
}

#[test]
fn test_schema_validation_incompatible_column() {
    let schema1 = Schema::new(vec![
        field("a", DataType::Int32, false),
        field("b", DataType::Int32, false),
        field("c", DataType::Int32, false),
    ]);
    let schema2 = Schema::new(vec![
        field("a", DataType::Int32, false),
        field("b", DataType::Float64, false),
        field("c", DataType::Int32, false),
    ]);
    let batch = int32_batch(schema1, vec![vec![1, 2, 3], vec![4, 5, 6], vec![7, 8, 9]]);
    match MemTable::try_new(schema2, vec![vec![batch]]) {
        Err(e) => assert!(matches!(e, ScanError::SchemaMismatch)),
        _ => panic!("MemTable::new should have failed due to schema mismatch"),
    }
}

#[test]
fn test_schema_validation_different_column_count() {
    let schema1 = Schema::new(vec![
        field("a", DataType::Int32, false),
        field("c", DataType::Int32, false),
    ]);
    let schema2 = Schema::new(vec![
        field("a", DataType::Int32, false),
        field("b", DataType::Int32, false),
        field("c", DataType::Int32, false),
    ]);
    let batch = int32_batch(schema1, vec![vec![1, 2, 3], vec![7, 5, 9]]);
    match MemTable::try_new(schema2, vec![vec![batch]]) {
        Err(e) => assert!(matches!(e, ScanError::SchemaMismatch)),
        _ => panic!("MemTable::new should have failed due to schema mismatch"),
    }
}

#[test]
fn test_merged_schema() {
    let mut metadata = Vec::new();
    metadata.push(MetadataEntry { key: b("foo"), value: b("bar") });

    let schema1 = Schema::new_with_metadata(
        vec![
            field("a", DataType::Int32, false),
            field("b", DataType::Int32, false),
            field("c", DataType::Int32, false),
        ],
        metadata.clone(),
    );
    let schema2 = Schema::new(vec![
        field("a", DataType::Int32, true),
        field("b", DataType::Int32, false),
        field("c", DataType::Int32, false),
    ]);
    // The union of the two: `a` relaxed to nullable, metadata kept.
    let merged_schema = Schema::new_with_metadata(
        vec![
            field("a", DataType::Int32, true),
            field("b", DataType::Int32, false),
            field("c", DataType::Int32, false),
        ],
        metadata,
    );

    let batch1 = int32_batch(schema1, vec![vec![1, 2, 3], vec![4, 5, 6], vec![7, 8, 9]]);
    let batch2 = int32_batch(schema2, vec![vec![1, 2, 3], vec![4, 5, 6], vec![7, 8, 9]]);

    let provider = MemTable::try_new(merged_schema, vec![vec![batch1, batch2]]).unwrap();
    let scan = provider.scan(None).unwrap();
    let batch1 = &scan.partition(0)[0];
    assert!(batch1.schema.fields.len() == 3);
    assert!(batch1.num_columns() == 3);
}

#[test]
fn nullability_is_one_way() {
    // A nullable declared field accepts both candidates; a non-nullable
    // one rejects a nullable candidate.
    let declared_nullable = field("a", DataType::Int32, true);
    let declared_strict = field("a", DataType::Int32, false);
    let candidate_nullable = field("a", DataType::Int32, true);
    let candidate_strict = field("a", DataType::Int32, false);
    assert!(field_contains(&declared_nullable, &candidate_nullable));
    assert!(field_contains(&declared_nullable, &candidate_strict));
    assert!(field_contains(&declared_strict, &candidate_strict));
    assert!(!field_contains(&declared_strict, &candidate_nullable));
}

#[test]
fn signed_accepts_unsigned_widening() {
    assert!(field_contains(
        &field("n", DataType::Int64, false),
        &field("n", DataType::UInt64, false),
    ));
    assert!(!field_contains(
        &field("n", DataType::UInt64, false),
        &field("n", DataType::Int64, false),
    ));
    assert!(!field_contains(
        &field("n", DataType::Int64, false),
        &field("n", DataType::UInt32, false),
    ));
}

#[test]
fn qualified_names_match_unqualified() {
    assert!(field_contains(
        &field("orders.total", DataType::Int64, false),
        &field("total", DataType::Int64, false),
    ));
    assert!(field_contains(
        &field("sum(orders.total)", DataType::Int64, false),
        &field("sum(total)", DataType::Int64, false),
    ));
    // A multi-argument call form is not treated as a call.
    assert!(!field_contains(
        &field("f(orders.total,x)", DataType::Int64, false),
        &field("f(total,x)", DataType::Int64, false),
    ));
}

#[test]
fn name_shape_helpers() {
    assert!(is_qualified(&b("t1.amount")));
    assert!(!is_qualified(&b("amount")));
    assert!(is_call(&b("sum(t1.amount)")));
    assert!(!is_call(&b("f(a,b)")));
    assert!(fun(&b("sum(t1.amount)")) == b("sum"));
    assert!(arg(&b("sum(t1.amount)")) == b("amount"));
    assert!(unqualifify(&b("t1.amount")) == b("amount"));
    assert!(normalized(&b("sum(t1.amount)")) == b("sum(amount)"));
    assert!(normalized(&b("t1.amount")) == b("amount"));
    assert!(normalized(&b("amount")) == b("amount"));
}

#[test]
fn metadata_must_be_superset() {
    let mut declared_md = Vec::new();
    declared_md.push(MetadataEntry { key: b("k1"), value: b("v1") });
    declared_md.push(MetadataEntry { key: b("k2"), value: b("v2") });
    let mut candidate_md = Vec::new();
    candidate_md.push(MetadataEntry { key: b("k1"), value: b("v1") });

    let declared = Schema::new_with_metadata(vec![field("a", DataType::Int32, true)], declared_md);
    let candidate = Schema::new_with_metadata(
        vec![field("a", DataType::Int32, false)],
        candidate_md,
    );
    assert!(schema_contains(&declared, &candidate));
    // The other way round the candidate carries a key the declared
    // schema lacks.
    assert!(!schema_contains(&candidate, &declared));
}

#[test]
fn first_batch_schema_becomes_authoritative() {
    let declared = Schema::new(vec![field("a", DataType::Int32, true)]);
    let batch_schema = Schema::new(vec![field("a", DataType::Int32, false)]);
    let batch = int32_batch(batch_schema, vec![vec![1, 2]]);
    let table = MemTable::try_new(declared, vec![vec![batch]]).unwrap();
    // The first batch's schema, not the declared one, is adopted.
    assert!(!table.schema().fields[0].nullable);

    let declared = Schema::new(vec![field("a", DataType::Int32, true)]);
    let empty = MemTable::try_new(declared, vec![]).unwrap();
    assert!(empty.schema().fields[0].nullable);
}
