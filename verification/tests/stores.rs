use diststore::iceberg::{
    box_err, DataFileRow, DataType, ExtensionError, Field, IcebergDataFiles, IcebergScan,
    IcebergSnapshots, Manifest, ManifestEntry, RuntimePreference, Snapshot,
};
use diststore::protocol::{Executor, KeyRead, KeyWrite};
use diststore::store::MemoryStore;
use diststore::timestamp::TxId;

const T: TxId = TxId { logical: 1, origin: 1 };

#[test]
fn store_keeps_the_last_write() {
    let mut s = MemoryStore::new();
    assert_eq!(s.get(1), None);
    s.set(1, 10);
    s.set(2, 20);
    s.set(1, 11);
    assert_eq!(s.get(1), Some(11));
    assert_eq!(s.get(2), Some(20));
    assert_eq!(s.get(3), None);
}

#[test]
fn applied_writes_are_read_back() {
    let mut s = MemoryStore::new();
    let writes = vec![
        KeyWrite { key: 1, value: 10 },
        KeyWrite { key: 2, value: 20 },
        KeyWrite { key: 1, value: 12 },
    ];
    assert_eq!(s.apply(T, &writes), Ok(()));
    assert_eq!(
        s.read(T, &vec![2, 1, 3, 1]),
        Ok(vec![
            KeyRead { key: 2, value: Some(20) },
            KeyRead { key: 1, value: Some(12) },
            KeyRead { key: 3, value: None },
            KeyRead { key: 1, value: Some(12) },
        ])
    );
    // A later write to one key leaves the others.
    assert_eq!(s.apply(T, &vec![KeyWrite { key: 2, value: 21 }]), Ok(()));
    assert_eq!(s.get(1), Some(12));
    assert_eq!(s.get(2), Some(21));
    assert_eq!(s.apply(T, &vec![]), Ok(()));
    assert_eq!(s.read(T, &vec![]), Ok(vec![]));
    assert_eq!(s.get(2), Some(21));
}

#[test]
fn table_functions_are_named_and_run_remotely() {
    assert_eq!(IcebergScan.name(), "iceberg_scan");
    assert_eq!(IcebergSnapshots.name(), "iceberg_snapshots");
    assert_eq!(IcebergDataFiles.name(), "iceberg_data_files");
    assert_eq!(IcebergScan.runtime_preference(), RuntimePreference::Remote);
    assert_eq!(IcebergSnapshots.runtime_preference(), RuntimePreference::Remote);
    assert_eq!(IcebergDataFiles.runtime_preference(), RuntimePreference::Remote);
}

#[test]
fn table_schemas() {
    let f = |name: &'static str, data_type: DataType, nullable: bool| Field { name, data_type, nullable };
    assert_eq!(
        IcebergSnapshots.schema(),
        vec![
            f("snapshot_id", DataType::Int64, false),
            f("timestamp_ms", DataType::Int64, false),
            f("manifest_list", DataType::Utf8, false),
            f("schema_id", DataType::Int32, false),
        ]
    );
    assert_eq!(
        IcebergDataFiles.schema(),
        vec![
            f("manifest_index", DataType::UInt64, false),
            f("manifest_content", DataType::Utf8, false),
            f("snapshot_id", DataType::Int64, true),
            f("sequence_number", DataType::Int64, true),
            f("file_sequence_number", DataType::Int64, true),
            f("file_path", DataType::Utf8, false),
            f("file_format", DataType::Utf8, false),
            f("record_count", DataType::Int64, false),
            f("file_size_bytes", DataType::Int64, false),
        ]
    );
}

#[test]
fn access_errors_are_boxed() {
    match box_err("no such bucket".to_string()) {
        ExtensionError::Access(cause) => assert_eq!(*cause, "no such bucket"),
    }
    match box_err(404u16) {
        ExtensionError::Access(cause) => assert_eq!(*cause, 404),
    }
}

#[test]
fn snapshots_column_by_column() {
    let snapshots = vec![
        Snapshot { snapshot_id: 7, timestamp_ms: 1000, manifest_list: "a.avro".to_string(), schema_id: 0 },
        Snapshot { snapshot_id: -3, timestamp_ms: 2000, manifest_list: "b.avro".to_string(), schema_id: 1 },
    ];
    let columns = IcebergSnapshots.columns(&snapshots);
    assert_eq!(columns.snapshot_id, vec![7, -3]);
    assert_eq!(columns.timestamp_ms, vec![1000, 2000]);
    assert_eq!(columns.manifest_list, vec!["a.avro".to_string(), "b.avro".to_string()]);
    assert_eq!(columns.schema_id, vec![0, 1]);

    let none = IcebergSnapshots.columns(&vec![]);
    assert!(none.snapshot_id.is_empty() && none.timestamp_ms.is_empty());
    assert!(none.manifest_list.is_empty() && none.schema_id.is_empty());
}

fn entry(path: &str, snapshot: Option<i64>, records: i64) -> ManifestEntry {
    ManifestEntry {
        snapshot_id: snapshot,
        sequence_number: snapshot.map(|s| s + 1),
        file_sequence_number: None,
        file_path: path.to_string(),
        file_format: "PARQUET".to_string(),
        record_count: records,
        file_size_in_bytes: records * 100,
    }
}

fn brief(r: &DataFileRow) -> (u64, String, Option<i64>, Option<i64>, Option<i64>, String, String, i64, i64) {
    (
        r.manifest_index,
        r.manifest_content.clone(),
        r.snapshot_id,
        r.sequence_number,
        r.file_sequence_number,
        r.file_path.clone(),
        r.file_format.clone(),
        r.record_count,
        r.file_size_bytes,
    )
}

#[test]
fn data_files_row_by_row() {
    let manifests = vec![
        Manifest { content: "data".to_string(), entries: vec![entry("x", Some(1), 5), entry("y", None, 6)] },
        Manifest { content: "deletes".to_string(), entries: vec![] },
        Manifest { content: "data".to_string(), entries: vec![entry("z", Some(3), 7)] },
    ];
    let rows = IcebergDataFiles.rows(&manifests);
    let got: Vec<_> = rows.iter().map(brief).collect();
    let p = "PARQUET".to_string();
    assert_eq!(
        got,
        vec![
            (0, "data".to_string(), Some(1), Some(2), None, "x".to_string(), p.clone(), 5, 500),
            (0, "data".to_string(), None, None, None, "y".to_string(), p.clone(), 6, 600),
            (2, "data".to_string(), Some(3), Some(4), None, "z".to_string(), p.clone(), 7, 700),
        ]
    );
    assert!(IcebergDataFiles.rows(&vec![]).is_empty());
}
