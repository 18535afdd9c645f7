//! The plan node that drops tables.
use vstd::prelude::*;

verus! {

/// The name of a table: bare, with its schema, or with catalog and schema.
#[derive(Debug)]
pub enum TableReference {
    Bare { table: String },
    Partial { schema: String, table: String },
    Full { catalog: String, schema: String, table: String },
}

/// A table's name as a mathematical value.
pub enum TableReferenceView {
    Bare { table: Seq<char> },
    Partial { schema: Seq<char>, table: Seq<char> },
    Full { catalog: Seq<char>, schema: Seq<char>, table: Seq<char> },
}

impl View for TableReference {
    type V = TableReferenceView;

    open spec fn view(&self) -> TableReferenceView {
        match *self {
            TableReference::Bare { table } => TableReferenceView::Bare { table: table@ },
            TableReference::Partial { schema, table } => TableReferenceView::Partial {
                schema: schema@,
                table: table@,
            },
            TableReference::Full { catalog, schema, table } => TableReferenceView::Full {
                catalog: catalog@,
                schema: schema@,
                table: table@,
            },
        }
    }
}

impl TableReference {
    /// A reference to the same table.
    pub fn duplicate(&self) -> (r: TableReference)
        ensures
            r@ == self@,
    {
        match self {
            TableReference::Bare { table } => TableReference::Bare { table: table.clone() },
            TableReference::Partial { schema, table } => TableReference::Partial {
                schema: schema.clone(),
                table: table.clone(),
            },
            TableReference::Full { catalog, schema, table } => TableReference::Full {
                catalog: catalog.clone(),
                schema: schema.clone(),
                table: table.clone(),
            },
        }
    }
}

/// Drops the named tables; with `if_exists`, a table that is not there is
/// passed over.
#[derive(Debug)]
pub struct DropTables {
    pub names: Vec<TableReference>,
    pub if_exists: bool,
}

/// What a `DropTables` node holds.
pub struct DropTablesView {
    pub names: Seq<TableReferenceView>,
    pub if_exists: bool,
}

impl View for DropTables {
    type V = DropTablesView;

    open spec fn view(&self) -> DropTablesView {
        DropTablesView {
            names: self.names@.map_values(|n: TableReference| n@),
            if_exists: self.if_exists,
        }
    }
}

impl DropTables {
    /// The name under which the node is known to the planner.
    pub fn name(&self) -> (r: &'static str)
        ensures
            r@ == "DropTables"@,
    {
        "DropTables"
    }

    /// The line that stands for the node in an explained plan.
    pub fn fmt_for_explain(&self) -> (r: &'static str)
        ensures
            r@ == "DropTables"@,
    {
        "DropTables"
    }

    /// The node rebuilt from itself: it has no expressions and no inputs to
    /// take others for, so the new node drops the same tables.
    pub fn from_template(&self) -> (r: DropTables)
        ensures
            r@ == self@,
    {
        let mut names: Vec<TableReference> = Vec::new();
        let mut i: usize = 0;
        while i < self.names.len()
            invariant
                i <= self.names.len(),
                names@.len() == i,
                forall|k: int| 0 <= k < i ==> (#[trigger] names@[k])@ == self.names@[k]@,
            decreases self.names.len() - i,
        {
            names.push(self.names[i].duplicate());
            i += 1;
        }
        assert(names@.map_values(|n: TableReference| n@) =~= self.names@.map_values(
            |n: TableReference| n@,
        ));
        DropTables { names, if_exists: self.if_exists }
    }
}

} // verus!
