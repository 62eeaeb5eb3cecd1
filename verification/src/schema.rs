//! Logical types, columns and schemas.

use vstd::prelude::*;
use vstd::string::*;

use crate::error::BqliteError;
use crate::text::{has_prefix, join3, starts_with, text_eq};
use crate::value::{PropertyValue, PropertyView};

verus! {

/// The implicit row-number column of a table.
pub const SEQ_ID_COLUMN: &'static str = "__seq_id";

/// The implicit ingest-batch column of a table.
pub const BATCH_ID_COLUMN: &'static str = "__batch_id";

/// The logical type of a column.
#[derive(Debug, Clone, Copy, PartialEq, Eq, Structural)]
pub enum BqlType {
    String,
    Int,
    Float,
    Bool,
    Timestamp,
}

/// A column of a schema.
#[derive(Debug)]
pub struct ColumnDef {
    pub name: String,
    pub bql_type: BqlType,
    pub nullable: bool,
    pub default_value: Option<PropertyValue>,
}

/// A column: its name, its type, whether it may be null, and what stands for it where it
/// is not given.
pub struct ColumnView {
    pub name: Seq<char>,
    pub bql_type: BqlType,
    pub nullable: bool,
    pub default_value: Option<PropertyView>,
}

impl View for ColumnDef {
    type V = ColumnView;

    open spec fn view(&self) -> ColumnView {
        ColumnView {
            name: self.name@,
            bql_type: self.bql_type,
            nullable: self.nullable,
            default_value: match self.default_value {
                Some(v) => Some(v@),
                None => None,
            },
        }
    }
}

/// A column without a default value.
pub open spec fn column_view(name: Seq<char>, bql_type: BqlType, nullable: bool) -> ColumnView {
    ColumnView { name, bql_type, nullable, default_value: None }
}

/// The contents of a list of columns.
pub open spec fn column_views(columns: Seq<ColumnDef>) -> Seq<ColumnView> {
    Seq::new(columns.len(), |i: int| columns[i]@)
}

/// Whether a name is reserved for system columns.
pub open spec fn is_system_name(name: Seq<char>) -> bool {
    has_prefix(name, "__"@)
}

impl ColumnDef {
    /// A column that is never null.
    pub fn required(name: &str, bql_type: BqlType) -> (r: Self)
        ensures
            r@ == column_view(name@, bql_type, false),
            r.default_value is None,
    {
        ColumnDef { name: name.to_owned(), bql_type, nullable: false, default_value: None }
    }

    /// A column that may be null.
    pub fn nullable(name: &str, bql_type: BqlType) -> (r: Self)
        ensures
            r@ == column_view(name@, bql_type, true),
            r.default_value is None,
    {
        ColumnDef { name: name.to_owned(), bql_type, nullable: true, default_value: None }
    }

    /// Whether this is a system column.
    pub fn is_system(&self) -> (r: bool)
        ensures
            r == is_system_name(self@.name),
    {
        starts_with(self.name.as_str(), "__")
    }

    /// A copy of this column.
    pub fn duplicate(&self) -> (r: ColumnDef)
        ensures
            r == *self,
    {
        let default_value: Option<PropertyValue> = match &self.default_value {
            Some(v) => Some(v.duplicate()),
            None => None,
        };
        ColumnDef {
            name: self.name.clone(),
            bql_type: self.bql_type,
            nullable: self.nullable,
            default_value,
        }
    }
}

/// The position of the first column with a name, from `i` on.
pub open spec fn column_position(columns: Seq<ColumnView>, name: Seq<char>, i: int) -> Option<int>
    decreases columns.len() - i,
{
    if i >= columns.len() {
        None
    } else if columns[i].name == name {
        Some(i)
    } else {
        column_position(columns, name, i + 1)
    }
}

/// No two columns have the same name.
pub open spec fn names_unique(columns: Seq<ColumnView>) -> bool {
    forall|i: int, j: int|
        0 <= i < j < columns.len() ==> (#[trigger] columns[i]).name != (
        #[trigger] columns[j]).name
}

pub proof fn lemma_column_position(columns: Seq<ColumnView>, name: Seq<char>, i: int)
    requires
        0 <= i,
    ensures
        match column_position(columns, name, i) {
            Some(k) => i <= k < columns.len() && columns[k].name == name && forall|j: int|
                i <= j < k ==> (#[trigger] columns[j]).name != name,
            None => forall|j: int| i <= j < columns.len() ==> (#[trigger] columns[j]).name != name,
        },
    decreases columns.len() - i,
{
    if i < columns.len() && columns[i].name != name {
        lemma_column_position(columns, name, i + 1);
    }
}

/// The position of the first column with a name.
pub fn find_column(columns: &Vec<ColumnDef>, name: &str) -> (r: Option<usize>)
    ensures
        column_position(column_views(columns@), name@, 0) == (match r {
            Some(i) => Some(i as int),
            None => None::<int>,
        }),
        r matches Some(i) ==> i < columns@.len() && columns@[i as int]@.name == name@,
{
    let ghost views = column_views(columns@);
    let mut i: usize = 0;
    while i < columns.len()
        invariant
            i <= columns@.len(),
            views == column_views(columns@),
            column_position(views, name@, 0) == column_position(views, name@, i as int),
        decreases columns@.len() - i,
    {
        assert(views[i as int] == columns@[i as int]@);
        if text_eq(columns[i].name.as_str(), name) {
            return Some(i);
        }
        i = i + 1;
    }
    None
}

/// A copy of a list of columns.
pub fn duplicate_columns(columns: &Vec<ColumnDef>) -> (r: Vec<ColumnDef>)
    ensures
        r@ == columns@,
{
    let mut out: Vec<ColumnDef> = Vec::new();
    let mut i: usize = 0;
    while i < columns.len()
        invariant
            i <= columns@.len(),
            out@.len() == i,
            forall|j: int| 0 <= j < i ==> #[trigger] out@[j] == columns@[j],
        decreases columns@.len() - i,
    {
        out.push(columns[i].duplicate());
        i = i + 1;
    }
    assert(out@ =~= columns@);
    out
}

/// The output columns of an operator. No two have the same name.
#[derive(Debug)]
pub struct OperatorSchema {
    pub columns: Vec<ColumnDef>,
}

impl View for OperatorSchema {
    type V = Seq<ColumnView>;

    open spec fn view(&self) -> Seq<ColumnView> {
        column_views(self.columns@)
    }
}

/// The error for a name that occurs twice.
pub open spec fn duplicate_column_text(name: Seq<char>) -> Seq<char> {
    "duplicate column `"@ + name + "`"@
}

/// The first column whose name occurs at an earlier position, from `i` on.
pub open spec fn first_duplicate(columns: Seq<ColumnView>, i: int) -> Option<int>
    decreases columns.len() - i,
{
    if i >= columns.len() {
        None
    } else if column_position(columns, columns[i].name, 0) != Some(i) {
        Some(i)
    } else {
        first_duplicate(columns, i + 1)
    }
}

impl OperatorSchema {
    /// No two columns have the same name.
    pub open spec fn wf(&self) -> bool {
        names_unique(self@)
    }

    /// A schema of the given columns. Fails where two have the same name.
    pub fn new(columns: Vec<ColumnDef>) -> (r: Result<Self, BqliteError>)
        ensures
            match r {
                Ok(s) => s.columns@ == columns@ && s@ == column_views(columns@) && s.wf(),
                Err(e) => {
                    &&& !names_unique(column_views(columns@))
                    &&& first_duplicate(column_views(columns@), 0) is Some
                    &&& e is Schema
                    &&& e.text() == duplicate_column_text(
                        columns@[first_duplicate(column_views(columns@), 0)->0]@.name,
                    )
                },
            },
            r is Ok <==> names_unique(column_views(columns@)),
    {
        let ghost views = column_views(columns@);
        let mut i: usize = 0;
        while i < columns.len()
            invariant
                i <= columns@.len(),
                views == column_views(columns@),
                first_duplicate(views, 0) == first_duplicate(views, i as int),
                forall|a: int, b: int|
                    0 <= a < b < i ==> (#[trigger] views[a]).name != (#[trigger] views[b]).name,
            decreases columns@.len() - i,
        {
            let name: &str = columns[i].name.as_str();
            proof {
                assert(views[i as int] == columns@[i as int]@);
                lemma_column_position(views, name@, 0);
            }
            match find_column(&columns, name) {
                Some(k) => {
                    if k != i {
                        assert(views[k as int].name == views[i as int].name);
                        assert(k < i);
                        return Err(BqliteError::Schema(join3("duplicate column `", name, "`")));
                    }
                },
                None => {},
            }
            i = i + 1;
        }
        Ok(OperatorSchema { columns })
    }

    /// The columns in order.
    pub fn columns(&self) -> (r: &Vec<ColumnDef>)
        ensures
            *r == self.columns,
    {
        &self.columns
    }

    /// The column with a name, and its position.
    pub fn column(&self, name: &str) -> (r: Option<(usize, &ColumnDef)>)
        ensures
            match r {
                Some((i, c)) => {
                    &&& column_position(self@, name@, 0) == Some(i as int)
                    &&& i < self@.len()
                    &&& *c == self.columns@[i as int]
                    &&& self@[i as int].name == name@
                },
                None => column_position(self@, name@, 0) is None,
            },
    {
        match find_column(&self.columns, name) {
            Some(i) => Some((i, &self.columns[i])),
            None => None,
        }
    }

    /// A copy of this schema.
    pub fn duplicate(&self) -> (r: OperatorSchema)
        ensures
            r.columns@ == self.columns@,
            r@ == self@,
    {
        OperatorSchema { columns: duplicate_columns(&self.columns) }
    }
}

/// A table: its name, its declared columns, and which of them identify the
/// entity, the time and the type of an event.
#[derive(Debug)]
pub struct TableSchema {
    pub name: String,
    pub columns: Vec<ColumnDef>,
    pub entity_key: usize,
    pub timestamp: usize,
    pub event_type: usize,
}

/// The system columns of a table.
pub open spec fn system_columns() -> Seq<ColumnView> {
    seq![
        column_view(SEQ_ID_COLUMN@, BqlType::Int, false),
        column_view(BATCH_ID_COLUMN@, BqlType::Int, false),
    ]
}

impl TableSchema {
    /// The declared columns.
    pub open spec fn declared(&self) -> Seq<ColumnView> {
        column_views(self.columns@)
    }

    /// The three roles are filled by different columns, and no two columns have
    /// the same name.
    pub open spec fn wf(&self) -> bool {
        &&& self.entity_key < self.columns@.len()
        &&& self.timestamp < self.columns@.len()
        &&& self.event_type < self.columns@.len()
        &&& self.entity_key != self.timestamp
        &&& self.entity_key != self.event_type
        &&& self.timestamp != self.event_type
        &&& names_unique(self.declared())
    }

    /// A table with the given columns and roles. Fails where two columns have the
    /// same name, where a role is not filled, or where one column fills two.
    pub fn new(
        name: &str,
        columns: Vec<ColumnDef>,
        entity_key: &str,
        timestamp: &str,
        event_type: &str,
    ) -> (r: Result<Self, BqliteError>)
        ensures
            match r {
                Ok(t) => {
                    &&& t.wf()
                    &&& t.name@ == name@
                    &&& t.columns@ == columns@
                    &&& t.declared() == column_views(columns@)
                    &&& t.declared()[t.entity_key as int].name == entity_key@
                    &&& t.declared()[t.timestamp as int].name == timestamp@
                    &&& t.declared()[t.event_type as int].name == event_type@
                },
                Err(e) => e is Schema,
            },
            r is Ok <==> names_unique(column_views(columns@)) && column_position(
                column_views(columns@),
                entity_key@,
                0,
            ) is Some && column_position(column_views(columns@), timestamp@, 0) is Some
                && column_position(column_views(columns@), event_type@, 0) is Some && entity_key@
                != timestamp@ && entity_key@ != event_type@ && timestamp@ != event_type@,
    {
        let schema: OperatorSchema = match OperatorSchema::new(columns) {
            Ok(s) => s,
            Err(e) => {
                return Err(e);
            },
        };
        let columns: Vec<ColumnDef> = schema.columns;
        if text_eq(entity_key, timestamp) || text_eq(entity_key, event_type) || text_eq(
            timestamp,
            event_type,
        ) {
            return Err(
                BqliteError::Schema(
                    join3("the role columns of table `", name, "` must be different columns"),
                ),
            );
        }
        let found = (
            find_column(&columns, entity_key),
            find_column(&columns, timestamp),
            find_column(&columns, event_type),
        );
        match found {
            (Some(e), Some(t), Some(v)) => Ok(
                TableSchema {
                    name: name.to_owned(),
                    columns,
                    entity_key: e,
                    timestamp: t,
                    event_type: v,
                },
            ),
            _ => Err(
                BqliteError::Schema(join3("a role column of table `", name, "` is missing")),
            ),
        }
    }

    /// The name of the entity column.
    pub fn entity_key_name(&self) -> (r: &String)
        requires
            self.wf(),
        ensures
            r@ == self.declared()[self.entity_key as int].name,
    {
        &self.columns[self.entity_key].name
    }

    /// The name of the time column.
    pub fn timestamp_name(&self) -> (r: &String)
        requires
            self.wf(),
        ensures
            r@ == self.declared()[self.timestamp as int].name,
    {
        &self.columns[self.timestamp].name
    }

    /// The declared columns, followed by the system columns.
    pub fn logical_columns(&self) -> (r: Vec<ColumnDef>)
        ensures
            column_views(r@) == self.declared() + system_columns(),
    {
        let mut out: Vec<ColumnDef> = duplicate_columns(&self.columns);
        assert(column_views(out@).len() == out@.len());
        out.push(ColumnDef::required(SEQ_ID_COLUMN, BqlType::Int));
        out.push(ColumnDef::required(BATCH_ID_COLUMN, BqlType::Int));
        proof {
            let want = self.declared() + system_columns();
            let n = self.columns@.len() as int;
            assert forall|i: int| 0 <= i < want.len() implies column_views(out@)[i] == want[i] by {
                if i < n {
                    assert(column_views(self.columns@)[i] == want[i]);
                }
            }
            assert(column_views(out@) =~= want);
        }
        out
    }
}

/// The columns that a scan reads: all, or those that are named.
#[derive(Debug)]
pub struct ColumnProjection {
    pub names: Vec<String>,
}

impl ColumnProjection {
    /// All columns.
    pub fn all() -> (r: Self)
        ensures
            r.names@.len() == 0,
    {
        ColumnProjection { names: Vec::new() }
    }

    /// The named columns; all when no name is given.
    pub fn with_columns(names: Vec<String>) -> (r: Self)
        ensures
            r.names@ == names@,
    {
        ColumnProjection { names }
    }

    /// Whether all columns are read.
    pub fn is_all(&self) -> (r: bool)
        ensures
            r == (self.names@.len() == 0),
    {
        self.names.len() == 0
    }

    /// The names.
    pub fn columns(&self) -> (r: &[String])
        ensures
            r@ == self.names@,
    {
        self.names.as_slice()
    }
}

/// Exactly the names that begin with two underscores are reserved.
pub proof fn theorem_reserved(name: Seq<char>)
    ensures
        is_system_name(name) <==> name.len() >= 2 && name[0] == '_' && name[1] == '_',
{
    reveal_strlit("__");
    let mark = "__"@;
    assert(mark.len() == 2 && mark[0] == '_' && mark[1] == '_');
    if name.len() >= 2 && name[0] == '_' && name[1] == '_' {
        assert(name.take(2) =~= mark);
    }
}

proof fn lemma_first_duplicate(columns: Seq<ColumnView>, i: int)
    requires
        0 <= i,
    ensures
        match first_duplicate(columns, i) {
            Some(k) => i <= k < columns.len() && column_position(columns, columns[k].name, 0)
                != Some(k) && forall|j: int|
                i <= j < k ==> column_position(columns, (#[trigger] columns[j]).name, 0) == Some(j),
            None => forall|j: int|
                i <= j < columns.len() ==> column_position(columns, (#[trigger] columns[j]).name, 0)
                    == Some(j),
        },
    decreases columns.len() - i,
{
    if i < columns.len() && column_position(columns, columns[i].name, 0) == Some(i) {
        lemma_first_duplicate(columns, i + 1);
    }
}

/// The column named in a complaint about a duplicate has the name of an earlier column, and
/// the columns before it have different names. There is no complaint only where all names
/// differ.
pub proof fn theorem_duplicate_named(columns: Seq<ColumnView>)
    ensures
        match first_duplicate(columns, 0) {
            Some(k) => {
                &&& 0 < k < columns.len()
                &&& exists|i: int| 0 <= i < k && (#[trigger] columns[i]).name == columns[k].name
                &&& forall|i: int, j: int|
                    0 <= i < j < k ==> (#[trigger] columns[i]).name != (#[trigger] columns[j]).name
            },
            None => forall|i: int, j: int|
                0 <= i < j < columns.len() ==> (#[trigger] columns[i]).name != (
                #[trigger] columns[j]).name,
        },
{
    lemma_first_duplicate(columns, 0);
    let end = match first_duplicate(columns, 0) {
        Some(k) => k,
        None => columns.len() as int,
    };
    assert forall|i: int, j: int| 0 <= i < j < end implies (#[trigger] columns[i]).name != (
    #[trigger] columns[j]).name by {
        lemma_column_position(columns, columns[j].name, 0);
    }
    if end < columns.len() {
        lemma_column_position(columns, columns[end].name, 0);
        let i = column_position(columns, columns[end].name, 0)->0;
        assert(columns[i].name == columns[end].name);
    }
}

/// A column is found by its name where there is one, and the first of that name is found.
pub proof fn theorem_found_by_name(columns: Seq<ColumnView>, name: Seq<char>)
    ensures
        match column_position(columns, name, 0) {
            Some(k) => 0 <= k < columns.len() && columns[k].name == name && forall|j: int|
                0 <= j < k ==> (#[trigger] columns[j]).name != name,
            None => forall|j: int| 0 <= j < columns.len() ==> (#[trigger] columns[j]).name != name,
        },
{
    lemma_column_position(columns, name, 0);
}

} // verus!
