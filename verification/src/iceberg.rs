//! Table functions over an Iceberg table: the shape of the tables that list
//! its snapshots and the data files of its manifests.
use vstd::prelude::*;

verus! {

/// Where a table function prefers to run.
#[derive(Clone, Copy, Debug, PartialEq, Eq, Structural)]
pub enum RuntimePreference {
    Unspecified,
    Local,
    Remote,
}

/// An error of a table function.
#[derive(Debug)]
pub enum ExtensionError<E> {
    /// Access to the table's storage failed; the cause is boxed.
    Access(Box<E>),
}

/// Wraps the cause of a failed access.
pub fn box_err<E>(err: E) -> (r: ExtensionError<E>)
    ensures
        r == ExtensionError::Access(Box::new(err)),
{
    ExtensionError::Access(Box::new(err))
}

/// The type of a column.
#[derive(Clone, Copy, Debug, PartialEq, Eq, Structural)]
pub enum DataType {
    Int32,
    Int64,
    UInt64,
    Utf8,
}

/// A column of a table: its name, its type, and whether it may hold nulls.
#[derive(Clone, Copy, Debug, PartialEq, Eq)]
pub struct Field {
    pub name: &'static str,
    pub data_type: DataType,
    pub nullable: bool,
}

/// A column as a mathematical value.
pub struct FieldView {
    pub name: Seq<char>,
    pub data_type: DataType,
    pub nullable: bool,
}

impl View for Field {
    type V = FieldView;

    open spec fn view(&self) -> FieldView {
        FieldView { name: self.name@, data_type: self.data_type, nullable: self.nullable }
    }
}

/// The columns of a list as mathematical values.
pub open spec fn field_views(fields: Seq<Field>) -> Seq<FieldView> {
    fields.map_values(|f: Field| f@)
}

/// The columns of the table of snapshots.
pub open spec fn snapshot_fields() -> Seq<FieldView> {
    seq![
        FieldView { name: "snapshot_id"@, data_type: DataType::Int64, nullable: false },
        FieldView { name: "timestamp_ms"@, data_type: DataType::Int64, nullable: false },
        FieldView { name: "manifest_list"@, data_type: DataType::Utf8, nullable: false },
        FieldView { name: "schema_id"@, data_type: DataType::Int32, nullable: false },
    ]
}

/// The columns of the table of data files.
pub open spec fn data_file_fields() -> Seq<FieldView> {
    seq![
        FieldView { name: "manifest_index"@, data_type: DataType::UInt64, nullable: false },
        FieldView { name: "manifest_content"@, data_type: DataType::Utf8, nullable: false },
        FieldView { name: "snapshot_id"@, data_type: DataType::Int64, nullable: true },
        FieldView { name: "sequence_number"@, data_type: DataType::Int64, nullable: true },
        FieldView { name: "file_sequence_number"@, data_type: DataType::Int64, nullable: true },
        FieldView { name: "file_path"@, data_type: DataType::Utf8, nullable: false },
        FieldView { name: "file_format"@, data_type: DataType::Utf8, nullable: false },
        FieldView { name: "record_count"@, data_type: DataType::Int64, nullable: false },
        FieldView { name: "file_size_bytes"@, data_type: DataType::Int64, nullable: false },
    ]
}

/// Scans an Iceberg table.
#[derive(Debug, Clone, Copy)]
pub struct IcebergScan;

/// Lists the snapshots of an Iceberg table without reading data files.
#[derive(Debug, Clone, Copy)]
pub struct IcebergSnapshots;

/// Lists the data files of the current snapshot of an Iceberg table
/// without reading them.
#[derive(Debug, Clone, Copy)]
pub struct IcebergDataFiles;

/// One snapshot of a table, as its metadata gives it.
#[derive(Debug)]
pub struct Snapshot {
    pub snapshot_id: i64,
    pub timestamp_ms: i64,
    pub manifest_list: String,
    pub schema_id: i32,
}

/// The snapshots of a table, column by column.
#[derive(Debug)]
pub struct SnapshotColumns {
    pub snapshot_id: Vec<i64>,
    pub timestamp_ms: Vec<i64>,
    pub manifest_list: Vec<String>,
    pub schema_id: Vec<i32>,
}

/// One entry of a manifest: a data file and where it belongs.
#[derive(Debug)]
pub struct ManifestEntry {
    pub snapshot_id: Option<i64>,
    pub sequence_number: Option<i64>,
    pub file_sequence_number: Option<i64>,
    pub file_path: String,
    pub file_format: String,
    pub record_count: i64,
    pub file_size_in_bytes: i64,
}

/// A manifest: what it lists, and its entries.
#[derive(Debug)]
pub struct Manifest {
    pub content: String,
    pub entries: Vec<ManifestEntry>,
}

/// One row of the table of data files.
#[derive(Debug)]
pub struct DataFileRow {
    pub manifest_index: u64,
    pub manifest_content: String,
    pub snapshot_id: Option<i64>,
    pub sequence_number: Option<i64>,
    pub file_sequence_number: Option<i64>,
    pub file_path: String,
    pub file_format: String,
    pub record_count: i64,
    pub file_size_bytes: i64,
}

/// A row of the table of data files as a mathematical value.
pub struct DataFileRowView {
    pub manifest_index: int,
    pub manifest_content: Seq<char>,
    pub snapshot_id: Option<i64>,
    pub sequence_number: Option<i64>,
    pub file_sequence_number: Option<i64>,
    pub file_path: Seq<char>,
    pub file_format: Seq<char>,
    pub record_count: i64,
    pub file_size_bytes: i64,
}

impl View for DataFileRow {
    type V = DataFileRowView;

    open spec fn view(&self) -> DataFileRowView {
        DataFileRowView {
            manifest_index: self.manifest_index as int,
            manifest_content: self.manifest_content@,
            snapshot_id: self.snapshot_id,
            sequence_number: self.sequence_number,
            file_sequence_number: self.file_sequence_number,
            file_path: self.file_path@,
            file_format: self.file_format@,
            record_count: self.record_count,
            file_size_bytes: self.file_size_bytes,
        }
    }
}

/// The row for entry `e` of the manifest `m`, which is the manifest number
/// `index`.
pub open spec fn row_of(m: Manifest, index: int, e: ManifestEntry) -> DataFileRowView {
    DataFileRowView {
        manifest_index: index,
        manifest_content: m.content@,
        snapshot_id: e.snapshot_id,
        sequence_number: e.sequence_number,
        file_sequence_number: e.file_sequence_number,
        file_path: e.file_path@,
        file_format: e.file_format@,
        record_count: e.record_count,
        file_size_bytes: e.file_size_in_bytes,
    }
}

/// The rows for the first `upto` entries of the manifest number `index`.
pub open spec fn manifest_rows(m: Manifest, index: int, upto: int) -> Seq<DataFileRowView> {
    Seq::new(upto as nat, |k: int| row_of(m, index, m.entries@[k]))
}

/// The rows for the first `upto` manifests: those of each manifest in the
/// order of its entries, manifest after manifest.
pub open spec fn rows_of(ms: Seq<Manifest>, upto: int) -> Seq<DataFileRowView>
    decreases upto,
{
    if upto <= 0 {
        Seq::empty()
    } else {
        rows_of(ms, upto - 1) + manifest_rows(
            ms[upto - 1],
            upto - 1,
            ms[upto - 1].entries@.len() as int,
        )
    }
}

/// The rows of a list as mathematical values.
pub open spec fn row_views(rows: Seq<DataFileRow>) -> Seq<DataFileRowView> {
    rows.map_values(|r: DataFileRow| r@)
}

impl IcebergScan {
    /// The scan runs where the data is.
    pub fn runtime_preference(&self) -> (r: RuntimePreference)
        ensures
            r == RuntimePreference::Remote,
    {
        RuntimePreference::Remote
    }

    /// The name under which the function is called.
    pub fn name(&self) -> (r: &'static str)
        ensures
            r@ == "iceberg_scan"@,
    {
        "iceberg_scan"
    }
}

impl IcebergSnapshots {
    /// The listing runs where the data is.
    pub fn runtime_preference(&self) -> (r: RuntimePreference)
        ensures
            r == RuntimePreference::Remote,
    {
        RuntimePreference::Remote
    }

    /// The name under which the function is called.
    pub fn name(&self) -> (r: &'static str)
        ensures
            r@ == "iceberg_snapshots"@,
    {
        "iceberg_snapshots"
    }

    /// The columns of the table of snapshots, none of which holds nulls.
    pub fn schema(&self) -> (r: Vec<Field>)
        ensures
            field_views(r@) == snapshot_fields(),
    {
        let mut fields: Vec<Field> = Vec::new();
        fields.push(Field { name: "snapshot_id", data_type: DataType::Int64, nullable: false });
        fields.push(Field { name: "timestamp_ms", data_type: DataType::Int64, nullable: false });
        fields.push(Field { name: "manifest_list", data_type: DataType::Utf8, nullable: false });
        fields.push(Field { name: "schema_id", data_type: DataType::Int32, nullable: false });
        assert(field_views(fields@) =~= snapshot_fields());
        fields
    }

    /// The table of snapshots, column by column: row `i` of every column
    /// is taken from snapshot `i`.
    pub fn columns(&self, snapshots: &Vec<Snapshot>) -> (r: SnapshotColumns)
        ensures
            r.snapshot_id@ == snapshots@.map_values(|s: Snapshot| s.snapshot_id),
            r.timestamp_ms@ == snapshots@.map_values(|s: Snapshot| s.timestamp_ms),
            r.schema_id@ == snapshots@.map_values(|s: Snapshot| s.schema_id),
            r.manifest_list@.len() == snapshots@.len(),
            forall|i: int|
                0 <= i < snapshots@.len() ==> (#[trigger] r.manifest_list@[i])@
                    == snapshots@[i].manifest_list@,
    {
        let mut out = SnapshotColumns {
            snapshot_id: Vec::new(),
            timestamp_ms: Vec::new(),
            manifest_list: Vec::new(),
            schema_id: Vec::new(),
        };
        let mut i: usize = 0;
        while i < snapshots.len()
            invariant
                i <= snapshots.len(),
                out.snapshot_id@ == snapshots@.subrange(0, i as int).map_values(
                    |s: Snapshot| s.snapshot_id,
                ),
                out.timestamp_ms@ == snapshots@.subrange(0, i as int).map_values(
                    |s: Snapshot| s.timestamp_ms,
                ),
                out.schema_id@ == snapshots@.subrange(0, i as int).map_values(
                    |s: Snapshot| s.schema_id,
                ),
                out.manifest_list@.len() == i,
                forall|k: int|
                    0 <= k < i ==> (#[trigger] out.manifest_list@[k])@
                        == snapshots@[k].manifest_list@,
            decreases snapshots.len() - i,
        {
            let s = &snapshots[i];
            out.snapshot_id.push(s.snapshot_id);
            out.timestamp_ms.push(s.timestamp_ms);
            out.manifest_list.push(s.manifest_list.clone());
            out.schema_id.push(s.schema_id);
            proof {
                let a = snapshots@.subrange(0, i as int);
                let b = snapshots@.subrange(0, i + 1);
                assert(b =~= a.push(snapshots@[i as int]));
                assert(out.snapshot_id@ =~= b.map_values(|s: Snapshot| s.snapshot_id));
                assert(out.timestamp_ms@ =~= b.map_values(|s: Snapshot| s.timestamp_ms));
                assert(out.schema_id@ =~= b.map_values(|s: Snapshot| s.schema_id));
            }
            i += 1;
        }
        assert(snapshots@.subrange(0, i as int) =~= snapshots@);
        out
    }
}

impl IcebergDataFiles {
    /// The listing runs where the data is.
    pub fn runtime_preference(&self) -> (r: RuntimePreference)
        ensures
            r == RuntimePreference::Remote,
    {
        RuntimePreference::Remote
    }

    /// The name under which the function is called.
    pub fn name(&self) -> (r: &'static str)
        ensures
            r@ == "iceberg_data_files"@,
    {
        "iceberg_data_files"
    }

    /// The columns of the table of data files; where a data file belongs
    /// may be unknown.
    pub fn schema(&self) -> (r: Vec<Field>)
        ensures
            field_views(r@) == data_file_fields(),
    {
        let mut fields: Vec<Field> = Vec::new();
        fields.push(Field { name: "manifest_index", data_type: DataType::UInt64, nullable: false });
        fields.push(Field { name: "manifest_content", data_type: DataType::Utf8, nullable: false });
        fields.push(Field { name: "snapshot_id", data_type: DataType::Int64, nullable: true });
        fields.push(Field { name: "sequence_number", data_type: DataType::Int64, nullable: true });
        fields.push(
            Field { name: "file_sequence_number", data_type: DataType::Int64, nullable: true },
        );
        fields.push(Field { name: "file_path", data_type: DataType::Utf8, nullable: false });
        fields.push(Field { name: "file_format", data_type: DataType::Utf8, nullable: false });
        fields.push(Field { name: "record_count", data_type: DataType::Int64, nullable: false });
        fields.push(Field { name: "file_size_bytes", data_type: DataType::Int64, nullable: false });
        assert(field_views(fields@) =~= data_file_fields());
        fields
    }

    /// The table of data files: one row for each entry of each manifest,
    /// in the order of the manifests and of their entries, each with the
    /// number of its manifest and what the manifest lists.
    pub fn rows(&self, manifests: &Vec<Manifest>) -> (r: Vec<DataFileRow>)
        ensures
            row_views(r@) == rows_of(manifests@, manifests@.len() as int),
    {
        let mut out: Vec<DataFileRow> = Vec::new();
        let mut i: usize = 0;
        assert(row_views(out@) =~= rows_of(manifests@, 0));
        while i < manifests.len()
            invariant
                i <= manifests.len(),
                row_views(out@) == rows_of(manifests@, i as int),
            decreases manifests.len() - i,
        {
            let m = &manifests[i];
            let ghost done = row_views(out@);
            let mut j: usize = 0;
            assert(row_views(out@) =~= done + manifest_rows(*m, i as int, 0));
            while j < m.entries.len()
                invariant
                    i < manifests.len(),
                    j <= m.entries.len(),
                    *m == manifests@[i as int],
                    row_views(out@) == done + manifest_rows(*m, i as int, j as int),
                decreases m.entries.len() - j,
            {
                let e = &m.entries[j];
                let ghost before = out@;
                out.push(
                    DataFileRow {
                        manifest_index: i as u64,
                        manifest_content: m.content.clone(),
                        snapshot_id: e.snapshot_id,
                        sequence_number: e.sequence_number,
                        file_sequence_number: e.file_sequence_number,
                        file_path: e.file_path.clone(),
                        file_format: e.file_format.clone(),
                        record_count: e.record_count,
                        file_size_bytes: e.file_size_in_bytes,
                    },
                );
                proof {
                    assert(out@[before.len() as int]@ == row_of(*m, i as int, *e));
                    assert(row_views(out@) =~= row_views(before).push(row_of(*m, i as int, *e)));
                    assert(manifest_rows(*m, i as int, j + 1) =~= manifest_rows(
                        *m,
                        i as int,
                        j as int,
                    ).push(row_of(*m, i as int, *e)));
                    assert(row_views(out@) =~= done + manifest_rows(*m, i as int, j + 1));
                }
                j += 1;
            }
            i += 1;
        }
        out
    }
}

} // verus!
