use duckdb_kart::duckdb_ffi::duckdb_type;
use duckdb_kart::kart::{ColumnSchema, Dataset};
use duckdb_kart::msgpack::Value;
use duckdb_kart::table_function::{
    column_type, column_types, format_i64_to_buf, next_batch_len, scan_row, scan_thread_count, split_dataset_path,
    value_cell, Cell, FloatValue,
};

fn col(id: &str, data_type: &str, size: Option<usize>) -> ColumnSchema {
    ColumnSchema {
        id: id.to_string(),
        name: id.to_string(),
        data_type: data_type.to_string(),
        primary_key_index: None,
        size,
        geometry_type: None,
        geometry_crs: None,
    }
}

#[test]
fn kart_types_map_to_duckdb_types() {
    assert_eq!(column_type(&col("a", "integer", Some(16))), duckdb_type::DUCKDB_TYPE_SMALLINT);
    assert_eq!(column_type(&col("a", "integer", Some(32))), duckdb_type::DUCKDB_TYPE_INTEGER);
    assert_eq!(column_type(&col("a", "integer", Some(64))), duckdb_type::DUCKDB_TYPE_BIGINT);
    assert_eq!(column_type(&col("a", "integer", None)), duckdb_type::DUCKDB_TYPE_BIGINT);
    assert_eq!(column_type(&col("a", "float", None)), duckdb_type::DUCKDB_TYPE_DOUBLE);
    assert_eq!(column_type(&col("a", "boolean", None)), duckdb_type::DUCKDB_TYPE_BOOLEAN);
    assert_eq!(column_type(&col("a", "geometry", None)), duckdb_type::DUCKDB_TYPE_BLOB);
    assert_eq!(column_type(&col("a", "blob", None)), duckdb_type::DUCKDB_TYPE_BLOB);
    assert_eq!(column_type(&col("a", "text", None)), duckdb_type::DUCKDB_TYPE_VARCHAR);
    assert_eq!(column_type(&col("a", "date", None)), duckdb_type::DUCKDB_TYPE_VARCHAR);
    let types = column_types(&vec![col("a", "float", None), col("b", "text", None)]);
    assert_eq!(types, vec![duckdb_type::DUCKDB_TYPE_DOUBLE, duckdb_type::DUCKDB_TYPE_VARCHAR]);
}

#[test]
fn dataset_path_splits_at_last_slash() {
    assert_eq!(
        split_dataset_path("kart-test/nz_vineyard_polygons_topo_150k"),
        Some(("kart-test".to_string(), "nz_vineyard_polygons_topo_150k".to_string()))
    );
    assert_eq!(split_dataset_path("a/b/c"), Some(("a/b".to_string(), "c".to_string())));
    assert_eq!(split_dataset_path("/x"), Some(("".to_string(), "x".to_string())));
    assert_eq!(split_dataset_path("repo/"), Some(("repo".to_string(), "".to_string())));
    assert_eq!(split_dataset_path("nosep"), None);
}

#[test]
fn scan_threads() {
    assert_eq!(scan_thread_count(Some(16), 5000), 3);
    assert_eq!(scan_thread_count(None, 100_000), 4);
    assert_eq!(scan_thread_count(Some(16), 0), 1);
    assert_eq!(scan_thread_count(Some(32), 1_000_000), 8);
    assert_eq!(scan_thread_count(Some(2), 2049), 2);
    assert_eq!(scan_thread_count(Some(16), 2048), 1);
}

#[test]
fn scan_batches() {
    assert_eq!(next_batch_len(0, 5000), 2048);
    assert_eq!(next_batch_len(4096, 5000), 904);
    assert_eq!(next_batch_len(6144, 5000), 0);
    assert_eq!(next_batch_len(5000, 5000), 0);
    assert_eq!(next_batch_len(0, 0), 0);
}

#[test]
fn integers_format_as_decimal() {
    let mut buf = [0u8; 32];
    assert_eq!(format_i64_to_buf(0, &mut buf), "0");
    assert_eq!(format_i64_to_buf(123, &mut buf), "123");
    assert_eq!(format_i64_to_buf(-45, &mut buf), "-45");
    assert_eq!(format_i64_to_buf(i64::MIN, &mut buf), "-9223372036854775808");
    assert_eq!(format_i64_to_buf(i64::MAX, &mut buf), "9223372036854775807");
    assert_eq!(format_i64_to_buf(-7, &mut buf), (-7i64).to_string());

    let mut fresh = [b'x'; 32];
    assert_eq!(format_i64_to_buf(0, &mut fresh), "0");
    assert_eq!(fresh, [b'x'; 32]);
    assert_eq!(format_i64_to_buf(-120, &mut fresh), "-120");
    assert_eq!(&fresh[..28], &[b'x'; 28]);
    assert_eq!(&fresh[28..], b"-120");
}

#[test]
fn values_become_cells() {
    let i = Value::Integer(70000);
    assert_eq!(value_cell(duckdb_type::DUCKDB_TYPE_BIGINT, false, Some(&i)), Cell::BigInt(70000));
    assert_eq!(value_cell(duckdb_type::DUCKDB_TYPE_INTEGER, false, Some(&i)), Cell::Integer(70000));
    assert_eq!(value_cell(duckdb_type::DUCKDB_TYPE_SMALLINT, false, Some(&i)), Cell::SmallInt(70000i64 as i16));
    assert_eq!(value_cell(duckdb_type::DUCKDB_TYPE_BIGINT, false, Some(&Value::String("x"))), Cell::BigInt(0));
    assert_eq!(value_cell(duckdb_type::DUCKDB_TYPE_DOUBLE, false, Some(&i)), Cell::Double(FloatValue::Integer(70000)));
    assert_eq!(value_cell(duckdb_type::DUCKDB_TYPE_DOUBLE, false, Some(&Value::Float(1))), Cell::Double(FloatValue::Double(1)));
    assert_eq!(value_cell(duckdb_type::DUCKDB_TYPE_DOUBLE, false, Some(&Value::Bool(true))), Cell::Double(FloatValue::Zero));
    assert_eq!(value_cell(duckdb_type::DUCKDB_TYPE_BOOLEAN, false, Some(&Value::Bool(true))), Cell::Boolean(true));
    assert_eq!(value_cell(duckdb_type::DUCKDB_TYPE_BOOLEAN, false, Some(&i)), Cell::Boolean(false));
    assert_eq!(value_cell(duckdb_type::DUCKDB_TYPE_VARCHAR, false, Some(&Value::String("s"))), Cell::Text("s"));
    assert_eq!(value_cell(duckdb_type::DUCKDB_TYPE_VARCHAR, false, Some(&i)), Cell::IntegerText(70000));
    assert_eq!(value_cell(duckdb_type::DUCKDB_TYPE_VARCHAR, false, Some(&Value::Float(9))), Cell::FloatText(FloatValue::Double(9)));
    assert_eq!(value_cell(duckdb_type::DUCKDB_TYPE_VARCHAR, false, Some(&Value::Bool(false))), Cell::Text("false"));
    assert_eq!(value_cell(duckdb_type::DUCKDB_TYPE_VARCHAR, false, Some(&Value::Binary(&[1]))), Cell::Null);
    assert_eq!(value_cell(duckdb_type::DUCKDB_TYPE_BLOB, false, Some(&Value::Binary(&[1]))), Cell::Blob(&[1]));
    assert_eq!(value_cell(duckdb_type::DUCKDB_TYPE_BLOB, false, Some(&Value::String("ab"))), Cell::Blob(b"ab"));
    assert_eq!(value_cell(duckdb_type::DUCKDB_TYPE_BLOB, false, Some(&i)), Cell::Null);
    let gpkg = [b'G', b'P', 0, 1, 0, 0, 0, 0, 0x01, 0x02];
    assert_eq!(value_cell(duckdb_type::DUCKDB_TYPE_BLOB, true, Some(&Value::Extension(71, &gpkg))), Cell::Blob(&[1, 2]));
    assert_eq!(value_cell(duckdb_type::DUCKDB_TYPE_BLOB, true, Some(&Value::Binary(&gpkg))), Cell::Blob(&[1, 2]));
    assert_eq!(value_cell(duckdb_type::DUCKDB_TYPE_BLOB, true, Some(&Value::Binary(&[1, 2]))), Cell::Null);
    assert_eq!(value_cell(duckdb_type::DUCKDB_TYPE_BLOB, true, Some(&Value::String("GP"))), Cell::Null);
    assert_eq!(value_cell(duckdb_type::DUCKDB_TYPE_BIGINT, false, Some(&Value::Nil)), Cell::Null);
    assert_eq!(value_cell(duckdb_type::DUCKDB_TYPE_BIGINT, false, None), Cell::Null);
    assert_eq!(value_cell(duckdb_type::DUCKDB_TYPE_DATE, false, Some(&i)), Cell::Null);
}

fn legend_blob() -> Vec<u8> {
    // [["f"], ["n", "g"]]
    vec![0x92, 0x91, 0xa1, b'f', 0x92, 0xa1, b'n', 0xa1, b'g']
}

#[test]
fn feature_rows_take_values_through_the_legend() {
    let schema = vec![col("f", "integer", None), col("n", "text", None), col("g", "geometry", None), col("q", "text", None)];
    let d = Dataset::from_parts("ds", schema.clone(), vec![("L1".into(), legend_blob())], vec![]);
    let types = column_types(&schema);
    // ["L1", ["hi", ext 71 gpkg]]
    let mut blob = vec![0x92, 0xa2, b'L', b'1', 0x92, 0xa2, b'h', b'i', 0xc7, 10, 71];
    blob.extend_from_slice(&[b'G', b'P', 0, 1, 0, 0, 0, 0, 0xaa, 0xbb]);
    let mut pk_buf = [0u8; 128];
    let row = scan_row(&d, &types, "BQ==", &mut pk_buf, &blob).unwrap();
    assert_eq!(row, vec![Cell::BigInt(5), Cell::Text("hi"), Cell::Blob(&[0xaa, 0xbb]), Cell::Null]);

    let mut pk_buf = [0u8; 128];
    let row = scan_row(&d, &types, "***", &mut pk_buf, &blob).unwrap();
    assert_eq!(row[0], Cell::Null);

    let mut pk_buf = [0u8; 128];
    assert!(scan_row(&d, &types, "BQ==", &mut pk_buf, &[0x91, 0x01]).is_none());
    let mut pk_buf = [0u8; 128];
    assert!(scan_row(&d, &types, "BQ==", &mut pk_buf, &[0x92, 0xa0, 0x05]).is_none());
}

#[test]
fn feature_rows_look_legends_up_by_key() {
    let schema = vec![col("f", "integer", None), col("n", "text", None)];
    let other = vec![0x92, 0x91, 0xa1, b'n', 0x91, 0xa1, b'f'];
    let d = Dataset::from_parts(
        "ds",
        schema.clone(),
        vec![("L1".into(), legend_blob()), ("L2".into(), other)],
        vec![],
    );
    let types = column_types(&schema);
    let blob1 = vec![0x92, 0xa2, b'L', b'1', 0x91, 0xa1, b'x'];
    let mut pk_buf = [0u8; 128];
    assert_eq!(scan_row(&d, &types, "BQ", &mut pk_buf, &blob1).unwrap(), vec![Cell::BigInt(5), Cell::Text("x")]);
    let blob2 = vec![0x92, 0xa2, b'L', b'2', 0x91, 0x07];
    let mut pk_buf = [0u8; 128];
    assert_eq!(
        scan_row(&d, &types, "oXk=", &mut pk_buf, &blob2).unwrap(),
        vec![Cell::BigInt(7), Cell::Text("y")]
    );
    let unknown = vec![0x92, 0xa2, b'L', b'3', 0x90];
    let mut pk_buf = [0u8; 128];
    assert!(scan_row(&d, &types, "BQ", &mut pk_buf, &unknown).is_none());
}
