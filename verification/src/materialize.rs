//! The boundary at which selected rows become batches of their own.
//!
//! A scan produces columns together with a selection of rows, and a merge produces
//! references to rows of several such batches. Here both are turned into batches
//! that hold nothing but the rows asked for, in the order asked for.

use arrow::array::ArrayData;
use vstd::prelude::*;
use vstd::string::*;

use crate::chunks::{ChunkView, all_legible, chunk_view, chunk_views, concat_column, join_outcome,
    joined_as, plain_cells, unpacked_cells};
use crate::columnar::{ArrayView, Batch, CellView, FieldSpec, FieldView, SchemaSpec,
    array_bytes, array_len, array_view, array_views, arrow_schema, arrow_text, batch_metadata,
    batch_view, buildable, column_at, copy_array, entry_type, filter_rows, is_legible,
    kept_cells, kept_count, names_once, new_batch, no_nulls, num_columns, num_rows, shows_plain,
    take_rows, taken_cells, taken_view, text_pairs, to_physical, type_of};
use crate::error::BqliteError;
use crate::schema::BqlType;
use crate::selection::{RowRun, RowSelection, SelectionVector, ascending, run_rows,
    selection_as_vector, selection_to_bool_array};
use crate::text::{decimal, decimal_text, has_prefix, join2, join3};

verus! {

/// Decoded columns of one source, each with the same number of rows.
#[derive(Debug)]
pub struct EncodedBatch {
    pub row_count: u32,
    pub columns: Vec<ArrayData>,
}

impl EncodedBatch {
    /// Every column has `row_count` rows of plain values.
    pub open spec fn wf(&self) -> bool {
        forall|i: int|
            0 <= i < self.columns@.len() ==> {
                &&& array_view(#[trigger] self.columns@[i]).cells.len() == self.row_count
                &&& is_legible(array_view(self.columns@[i]))
            }
    }

    /// Whether every column has `row_count` rows of plain values.
    pub fn is_consistent(&self) -> (r: bool)
        ensures
            r == self.wf(),
    {
        let mut i: usize = 0;
        while i < self.columns.len()
            invariant
                i <= self.columns@.len(),
                forall|j: int|
                    0 <= j < i ==> {
                        &&& array_view(#[trigger] self.columns@[j]).cells.len() == self.row_count
                        &&& is_legible(array_view(self.columns@[j]))
                    },
            decreases self.columns@.len() - i,
        {
            if !shows_plain(&self.columns[i]) || array_len(&self.columns[i]) != self.row_count as usize {
                assert(!(array_view(self.columns@[i as int]).cells.len() == self.row_count
                    && is_legible(array_view(self.columns@[i as int]))));
                return false;
            }
            i = i + 1;
        }
        true
    }
}

/// A batch and, unless all of its rows are live, which of them are.
pub struct FilteredBatch {
    pub batch: Batch,
    pub selection: Option<SelectionVector>,
}

impl FilteredBatch {
    /// The live rows are rows of the batch, in ascending order.
    pub open spec fn wf(&self) -> bool {
        self.selection matches Some(sv) ==> {
            &&& sv.wf()
            &&& forall|i: int|
                0 <= i < sv.indices@.len() ==> (#[trigger] sv.indices@[i]) < batch_view(
                    self.batch,
                ).rows
        }
    }

    /// A batch all of whose rows are live.
    pub fn dense(batch: Batch) -> (r: Self)
        ensures
            r.batch == batch,
            r.selection is None,
            r.wf(),
    {
        FilteredBatch { batch, selection: None }
    }

    /// Whether the live rows are rows of the batch, in ascending order.
    pub fn is_consistent(&self) -> (r: bool)
        ensures
            r == self.wf(),
    {
        match &self.selection {
            None => true,
            Some(sv) => {
                let n: usize = num_rows(&self.batch);
                let mut i: usize = 0;
                while i < sv.indices.len()
                    invariant
                        i <= sv.indices@.len(),
                        n == batch_view(self.batch).rows,
                        self.selection == Some(*sv),
                        forall|j: int| 0 <= j < i ==> (#[trigger] sv.indices@[j]) < n,
                    decreases sv.indices@.len() - i,
                {
                    if sv.indices[i] as usize >= n {
                        assert(!(sv.indices@[i as int] < batch_view(self.batch).rows));
                        return false;
                    }
                    i = i + 1;
                }
                sv.is_ascending()
            },
        }
    }

    /// Whether all rows are live without a selection saying so.
    pub fn is_dense(&self) -> (r: bool)
        ensures
            r == (self.selection is None),
    {
        self.selection.is_none()
    }
}

/// What materialisation has cost so far.
#[derive(Debug, Clone, Copy, PartialEq, Eq, Structural)]
pub struct MaterializeMetrics {
    pub selected_rows_before_materialization: u64,
    pub materialized_rows: u64,
    pub bytes_materialized_after_filter: u64,
    pub selection_vector_materializations: u64,
}

/// A count that stops at the largest number.
pub open spec fn capped_sum(a: u64, b: int) -> u64 {
    if a + b > u64::MAX {
        u64::MAX
    } else {
        (a + b) as u64
    }
}

impl MaterializeMetrics {
    /// Nothing yet.
    pub fn new() -> (r: Self)
        ensures
            r == (MaterializeMetrics {
                selected_rows_before_materialization: 0,
                materialized_rows: 0,
                bytes_materialized_after_filter: 0,
                selection_vector_materializations: 0,
            }),
    {
        MaterializeMetrics {
            selected_rows_before_materialization: 0,
            materialized_rows: 0,
            bytes_materialized_after_filter: 0,
            selection_vector_materializations: 0,
        }
    }
}

/// The type and the cells of a column.
pub struct ColumnContent {
    pub data_type: arrow::datatypes::DataType,
    pub cells: Seq<Option<CellView>>,
}

/// The types and the cells of columns.
pub open spec fn contents(views: Seq<ArrayView>) -> Seq<ColumnContent> {
    Seq::new(
        views.len(),
        |i: int| ColumnContent { data_type: views[i].data_type, cells: views[i].cells },
    )
}

/// Whether columns make up a batch with the given fields.
pub open spec fn fits(fields: Seq<FieldView>, columns: Seq<ColumnContent>) -> bool {
    &&& fields.len() == columns.len()
    &&& columns.len() > 0
    &&& forall|i: int|
        0 <= i < columns.len() ==> {
            &&& (#[trigger] columns[i]).cells.len() == columns[0].cells.len()
            &&& columns[i].data_type == fields[i].data_type
            &&& fields[i].nullable || no_nulls(columns[i].cells)
        }
}

/// The fields, with the types that the columns really have.
pub open spec fn matched_fields(fields: Seq<FieldView>, columns: Seq<ColumnContent>) -> Seq<
    FieldView,
> {
    Seq::new(
        fields.len(),
        |i: int|
            FieldView {
                name: fields[i].name,
                data_type: columns[i].data_type,
                nullable: fields[i].nullable,
            },
    )
}

/// The fields of a batch: those of the schema, with the types that the columns
/// really have if dictionaries may be passed on.
pub open spec fn batch_fields(
    fields: Seq<FieldView>,
    columns: Seq<ColumnContent>,
    prefer_dict_string: bool,
) -> Seq<FieldView> {
    if prefer_dict_string {
        matched_fields(fields, columns)
    } else {
        fields
    }
}

/// Whether a batch without a selection has the given fields and columns.
pub open spec fn holds_columns(
    fb: FilteredBatch,
    fields: Seq<FieldView>,
    columns: Seq<ColumnContent>,
) -> bool {
    &&& fb.selection is None
    &&& batch_view(fb.batch).fields == fields
    &&& contents(batch_view(fb.batch).columns) == columns
    &&& batch_view(fb.batch).rows == columns[0].cells.len()
}

/// Whether a result is a batch of the given columns, or the failure to make one up
/// where they do not fit.
pub open spec fn built_as(
    r: Result<FilteredBatch, BqliteError>,
    begin: Seq<char>,
    fields: Seq<FieldView>,
    columns: Seq<ColumnContent>,
) -> bool {
    match r {
        Ok(fb) => fits(fields, columns) && holds_columns(fb, fields, columns),
        Err(e) => {
            &&& !fits(fields, columns)
            &&& e is Execution
            &&& has_prefix(e.text(), begin)
        },
    }
}

/// The rows that are selected out of `row_count` rows.
pub open spec fn selected_rows(selection: Option<RowSelection>, row_count: u32) -> Seq<u32> {
    match selection {
        Some(s) => s.rows(),
        None => Seq::new(row_count as nat, |i: int| i as u32),
    }
}

/// The selected rows of the columns of a source.
pub open spec fn selected_columns(batch: EncodedBatch, selection: Option<RowSelection>) -> Seq<
    ColumnContent,
> {
    Seq::new(
        batch.columns@.len(),
        |i: int|
            ColumnContent {
                data_type: array_view(batch.columns@[i]).data_type,
                cells: taken_cells(
                    array_view(batch.columns@[i]).cells,
                    selected_rows(selection, batch.row_count),
                ),
            },
    )
}

/// Whether a selection selects rows of a source only.
pub open spec fn selects_within(selection: Option<RowSelection>, row_count: u32) -> bool {
    selection matches Some(s) ==> {
        &&& s.wf()
        &&& forall|i: int| 0 <= i < s.rows().len() ==> (#[trigger] s.rows()[i]) < row_count
    }
}

proof fn lemma_fits(fields: Seq<FieldView>, views: Seq<ArrayView>)
    ensures
        fits(fields, contents(views)) == buildable(fields, views),
{
    let columns = contents(views);
    if buildable(fields, views) {
        assert forall|i: int| 0 <= i < columns.len() implies {
            &&& (#[trigger] columns[i]).cells.len() == columns[0].cells.len()
            &&& columns[i].data_type == fields[i].data_type
            &&& fields[i].nullable || no_nulls(columns[i].cells)
        } by {
            let _ = views[i];
        }
    }
    if fits(fields, columns) {
        assert forall|i: int| 0 <= i < views.len() implies {
            &&& (#[trigger] views[i]).cells.len() == views[0].cells.len()
            &&& views[i].data_type == fields[i].data_type
            &&& fields[i].nullable || no_nulls(views[i].cells)
        } by {
            let _ = columns[i];
        }
    }
}

/// The text of two numbers in a sentence.
fn two_numbers(a: &str, x: usize, b: &str, y: usize, c: &str) -> (r: String)
    ensures
        r@ == a@ + decimal(x as nat) + b@ + decimal(y as nat) + c@,
{
    let begin: String = join3(a, decimal_text(x as u64).as_str(), b);
    join3(begin.as_str(), decimal_text(y as u64).as_str(), c)
}

/// A copy of the metadata of a field or a schema.
fn copy_metadata(pairs: &Vec<(String, String)>) -> (r: Vec<(String, String)>)
    ensures
        r@.len() == pairs@.len(),
        forall|i: int|
            0 <= i < r@.len() ==> (#[trigger] r@[i]).0@ == pairs@[i].0@ && r@[i].1@ == pairs@[i].1@,
{
    let mut r: Vec<(String, String)> = Vec::new();
    let mut i: usize = 0;
    while i < pairs.len()
        invariant
            i <= pairs@.len(),
            r@.len() == i,
            forall|j: int|
                0 <= j < i ==> (#[trigger] r@[j]).0@ == pairs@[j].0@ && r@[j].1@ == pairs@[j].1@,
        decreases pairs@.len() - i,
    {
        r.push((pairs[i].0.clone(), pairs[i].1.clone()));
        i = i + 1;
    }
    r
}

/// Whether two lists of metadata hold the same texts.
pub open spec fn same_metadata(a: Seq<(String, String)>, b: Seq<(String, String)>) -> bool {
    &&& a.len() == b.len()
    &&& forall|i: int| 0 <= i < a.len() ==> (#[trigger] a[i]).0@ == b[i].0@ && a[i].1@ == b[i].1@
}

/// A schema whose fields have the types of the given arrays. Names, nullability and
/// metadata are those of the schema.
pub fn schema_matching_arrays(schema: &SchemaSpec, arrays: &Vec<ArrayData>) -> (r: Result<
    SchemaSpec,
    BqliteError,
>)
    ensures
        match r {
            Ok(s) => {
                &&& schema.fields@.len() == arrays@.len()
                &&& s@ == matched_fields(schema@, contents(array_views(arrays@)))
                &&& same_metadata(s.metadata@, schema.metadata@)
                &&& forall|i: int|
                    0 <= i < s.fields@.len() ==> same_metadata(
                        (#[trigger] s.fields@[i]).metadata@,
                        schema.fields@[i].metadata@,
                    )
            },
            Err(e) => {
                &&& schema.fields@.len() != arrays@.len()
                &&& e is Execution
                &&& e.text() == "schema_matching_arrays: schema has "@ + decimal(
                    schema.fields@.len(),
                ) + " fields but "@ + decimal(arrays@.len()) + " arrays"@
            },
        },
{
    if schema.fields.len() != arrays.len() {
        return Err(
            BqliteError::Execution(
                two_numbers(
                    "schema_matching_arrays: schema has ",
                    schema.fields.len(),
                    " fields but ",
                    arrays.len(),
                    " arrays",
                ),
            ),
        );
    }
    let ghost matched = matched_fields(schema@, contents(array_views(arrays@)));
    let mut fields: Vec<FieldSpec> = Vec::new();
    let mut i: usize = 0;
    while i < arrays.len()
        invariant
            i <= arrays@.len() == schema.fields@.len(),
            matched == matched_fields(schema@, contents(array_views(arrays@))),
            fields@.len() == i,
            forall|j: int|
                0 <= j < i ==> (#[trigger] fields@[j])@ == matched[j] && same_metadata(
                    fields@[j].metadata@,
                    schema.fields@[j].metadata@,
                ),
        decreases arrays@.len() - i,
    {
        fields.push(
            FieldSpec {
                name: schema.fields[i].name.clone(),
                data_type: type_of(&arrays[i]),
                nullable: schema.fields[i].nullable,
                metadata: copy_metadata(&schema.fields[i].metadata),
            },
        );
        i = i + 1;
    }
    let s = SchemaSpec { fields, metadata: copy_metadata(&schema.metadata) };
    assert(s@ =~= matched);
    Ok(s)
}

/// Whether a batch has the metadata of a schema, in which no name occurs twice.
pub open spec fn keeps_metadata(
    r: Result<FilteredBatch, BqliteError>,
    schema: SchemaSpec,
) -> bool {
    r matches Ok(fb) ==> schema.notes_once() ==> batch_metadata(fb.batch) == schema.notes()
}

/// Two lists that hold the same texts are the same metadata.
proof fn lemma_same_metadata(a: Seq<(String, String)>, b: Seq<(String, String)>)
    requires
        same_metadata(a, b),
    ensures
        text_pairs(a) == text_pairs(b),
{
    assert(text_pairs(a) =~= text_pairs(b)) by {
        assert forall|i: int| 0 <= i < a.len() implies text_pairs(a)[i] == text_pairs(b)[i] by {
            let _ = a[i];
        }
    }
}

/// The batch of the given columns.
fn build_batch(schema: &SchemaSpec, arrays: Vec<ArrayData>, begin: &str) -> (r: Result<
    FilteredBatch,
    BqliteError,
>)
    ensures
        built_as(r, begin@, schema@, contents(array_views(arrays@))),
        keeps_metadata(r, *schema),
{
    proof {
        lemma_fits(schema@, array_views(arrays@));
    }
    match new_batch(&arrow_schema(schema), arrays) {
        Ok(b) => Ok(FilteredBatch::dense(b)),
        Err(e) => {
            let text: String = join2(begin, arrow_text(&e).as_str());
            assert(text@.take(begin@.len() as int) =~= begin@);
            Err(BqliteError::Execution(text))
        },
    }
}

/// The batch of the given columns, with a schema that follows their types if
/// dictionaries may be passed on.
fn build_preferred(
    schema: &SchemaSpec,
    arrays: Vec<ArrayData>,
    prefer_dict_string: bool,
    begin: &str,
) -> (r: Result<FilteredBatch, BqliteError>)
    requires
        schema.fields@.len() == arrays@.len(),
    ensures
        built_as(
            r,
            begin@,
            batch_fields(schema@, contents(array_views(arrays@)), prefer_dict_string),
            contents(array_views(arrays@)),
        ),
        keeps_metadata(r, *schema),
{
    if prefer_dict_string {
        match schema_matching_arrays(schema, &arrays) {
            Ok(s) => {
                proof {
                    lemma_same_metadata(s.metadata@, schema.metadata@);
                    assert(s@.len() == s.fields@.len());
                    assert forall|i: int| 0 <= i < s.fields@.len() implies text_pairs(
                        (#[trigger] s.fields@[i]).metadata@,
                    ) == text_pairs(schema.fields@[i].metadata@) by {
                        lemma_same_metadata(s.fields@[i].metadata@, schema.fields@[i].metadata@);
                    }
                    assert(s.notes().fields =~= schema.notes().fields);
                    if schema.notes_once() {
                        assert forall|i: int| 0 <= i < s.fields@.len() implies names_once(
                            text_pairs((#[trigger] s.fields@[i]).metadata@),
                        ) by {
                            let _ = schema.fields@[i];
                        }
                    }
                }
                build_batch(&s, arrays, begin)
            },
            Err(e) => Err(e),
        }
    } else {
        build_batch(schema, arrays, begin)
    }
}

/// A copy of row numbers.
fn copy_rows(rows: &Vec<u32>) -> (r: Vec<u32>)
    ensures
        r@ == rows@,
{
    let mut r: Vec<u32> = Vec::new();
    let mut i: usize = 0;
    while i < rows.len()
        invariant
            i <= rows@.len(),
            r@ == rows@.take(i as int),
        decreases rows@.len() - i,
    {
        r.push(rows[i]);
        assert(rows@.take(i + 1) =~= rows@.take(i as int).push(rows@[i as int]));
        i = i + 1;
    }
    assert(rows@.take(rows@.len() as int) =~= rows@);
    r
}

/// The rows of a column with the given numbers.
fn reduce(column: &ArrayData, rows: &Vec<u32>) -> (r: Result<ArrayData, BqliteError>)
    requires
        is_legible(array_view(*column)),
        forall|i: int|
            0 <= i < rows@.len() ==> (#[trigger] rows@[i]) < array_view(*column).cells.len(),
    ensures
        r matches Ok(a) && chunk_view(a) == taken_chunk(chunk_view(*column), rows@),
{
    match take_rows(column, copy_rows(rows)) {
        Ok(a) => {
            assert(chunk_view(a).entries =~= taken_chunk(chunk_view(*column), rows@).entries);
            Ok(a)
        },
        Err(e) => {
            let begin: &str = "materialize_stitched: arrow::compute::take failed: ";
            Err(BqliteError::Execution(join2(begin, arrow_text(&e).as_str())))
        },
    }
}

/// A chunk reduced to the rows with the given numbers. A dictionary keeps its
/// entries, unless no row is left.
pub open spec fn taken_chunk(c: ChunkView, rows: Seq<u32>) -> ChunkView {
    ChunkView {
        view: taken_view(c.view, rows),
        entries: if rows.len() > 0 {
            c.entries
        } else {
            Seq::empty()
        },
    }
}

/// The selected rows of the columns of a source.
fn select_columns(batch: &EncodedBatch, selection: Option<&RowSelection>) -> (r: Result<
    Vec<ArrayData>,
    BqliteError,
>)
    requires
        batch.wf(),
        selects_within(owned(selection), batch.row_count),
    ensures
        r matches Ok(arrays) && contents(array_views(arrays@)) == selected_columns(
            *batch,
            owned(selection),
        ),
{
    let ghost want = selected_columns(*batch, owned(selection));
    let ghost picked = selected_rows(owned(selection), batch.row_count);
    let mut arrays: Vec<ArrayData> = Vec::new();
    match selection {
        None => {
            let mut i: usize = 0;
            while i < batch.columns.len()
                invariant
                    i <= batch.columns@.len(),
                    batch.wf(),
                    want == selected_columns(*batch, None),
                    arrays@.len() == i,
                    forall|j: int|
                        0 <= j < i ==> {
                            &&& array_view(#[trigger] arrays@[j]).data_type == want[j].data_type
                            &&& array_view(arrays@[j]).cells == want[j].cells
                        },
                decreases batch.columns@.len() - i,
            {
                let array = copy_array(&batch.columns[i]);
                assert(array_view(array).cells =~= want[i as int].cells) by {
                    let _ = batch.columns@[i as int];
                }
                arrays.push(array);
                i = i + 1;
            }
        },
        Some(s) => {
            let rows: SelectionVector = selection_as_vector(s);
            let mut i: usize = 0;
            while i < batch.columns.len()
                invariant
                    i <= batch.columns@.len(),
                    batch.wf(),
                    selects_within(Some(*s), batch.row_count),
                    rows.indices@ == s.rows(),
                    want == selected_columns(*batch, Some(*s)),
                    arrays@.len() == i,
                    forall|j: int|
                        0 <= j < i ==> {
                            &&& array_view(#[trigger] arrays@[j]).data_type == want[j].data_type
                            &&& array_view(arrays@[j]).cells == want[j].cells
                        },
                decreases batch.columns@.len() - i,
            {
                assert(array_view(batch.columns@[i as int]).cells.len() == batch.row_count);
                match reduce(&batch.columns[i], &rows.indices) {
                    Ok(array) => {
                        assert(array_view(array) == chunk_view(array).view);
                        arrays.push(array);
                    },
                    Err(e) => {
                        return Err(e);
                    },
                }
                i = i + 1;
            }
        },
    }
    proof {
        let got = contents(array_views(arrays@));
        assert forall|j: int| 0 <= j < got.len() implies got[j] == want[j] by {
            let _ = arrays@[j];
        }
        assert(got =~= want);
    }
    Ok(arrays)
}

/// What an optional reference refers to.
pub open spec fn owned(selection: Option<&RowSelection>) -> Option<RowSelection> {
    match selection {
        Some(s) => Some(*s),
        None => None,
    }
}

/// The sum of the first `n` sizes, up to the largest number.
pub open spec fn size_total(sizes: Seq<usize>, n: int) -> u64
    decreases n,
{
    if n <= 0 {
        0
    } else {
        capped_sum(size_total(sizes, n - 1), sizes[n - 1] as int)
    }
}

/// Whether each size is what Arrow has said of the array beside it. What it says
/// depends on how memory was allocated.
pub closed spec fn measured(arrays: Seq<ArrayData>, sizes: Seq<usize>) -> bool {
    &&& arrays.len() == sizes.len()
    &&& forall|i: int|
        0 <= i < sizes.len() ==> #[trigger] call_ensures(array_bytes, (&arrays[i],), sizes[i])
}

/// Whether `total` is the sum of what Arrow has said of the sizes of columns.
pub open spec fn measures(columns: Seq<ArrayView>, total: u64) -> bool {
    exists|arrays: Seq<ArrayData>, sizes: Seq<usize>|
        {
            &&& #[trigger] measured(arrays, sizes)
            &&& array_views(arrays) == columns
            &&& total == size_total(sizes, sizes.len() as int)
        }
}

/// The number of bytes of the columns of a batch.
fn record_batch_bytes(batch: &Batch) -> (r: u64)
    ensures
        measures(batch_view(*batch).columns, r),
{
    let n: usize = num_columns(batch);
    let ghost columns = batch_view(*batch).columns;
    let ghost mut arrays: Seq<ArrayData> = Seq::empty();
    let ghost mut sizes: Seq<usize> = Seq::empty();
    let mut total: u64 = 0;
    let mut i: usize = 0;
    while i < n
        invariant
            i <= n,
            columns == batch_view(*batch).columns,
            n == columns.len(),
            sizes.len() == i,
            measured(arrays, sizes),
            array_views(arrays) == columns.take(i as int),
            total == size_total(sizes, i as int),
        decreases n - i,
    {
        let column = column_at(batch, i);
        let size: usize = array_bytes(&column);
        proof {
            let before = sizes;
            let held = arrays;
            sizes = sizes.push(size);
            arrays = arrays.push(column);
            assert forall|j: int| 0 <= j < sizes.len() implies #[trigger] call_ensures(
                array_bytes,
                (&arrays[j],),
                sizes[j],
            ) by {
                if j < i {
                    assert(call_ensures(array_bytes, (&held[j],), before[j]));
                }
            }
            lemma_size_total_start(before, sizes, i as int);
            assert(array_views(arrays) =~= columns.take(i + 1)) by {
                assert forall|j: int| 0 <= j < arrays.len() implies array_views(arrays)[j]
                    == columns[j] by {
                    if j < i {
                        assert(array_views(held)[j] == columns.take(i as int)[j]);
                    }
                }
            }
        }
        total = total.saturating_add(size as u64);
        i = i + 1;
    }
    assert(columns.take(n as int) =~= columns);
    total
}

/// The sum of the first sizes depends on those alone.
proof fn lemma_size_total_start(a: Seq<usize>, b: Seq<usize>, n: int)
    requires
        n <= a.len() <= b.len(),
        forall|i: int| 0 <= i < n ==> a[i] == b[i],
    ensures
        size_total(a, n) == size_total(b, n),
    decreases n,
{
    if n > 0 {
        lemma_size_total_start(a, b, n - 1);
    }
}

/// The text that says that a source has the wrong number of columns for the types.
pub open spec fn types_text(columns: nat, types: nat) -> Seq<char> {
    "materialize_selected: batch has "@ + decimal(columns) + " columns but "@ + decimal(types)
        + " types were provided"@
}

/// The text that says that a source has the wrong number of columns for the schema.
pub open spec fn fields_text(columns: nat, fields: nat) -> Seq<char> {
    "materialize_selected: batch has "@ + decimal(columns) + " columns but schema has "@ + decimal(
        fields,
    ) + " fields"@
}

/// Whether a result is the selected rows of a source as a batch.
pub open spec fn selected_as(
    r: Result<FilteredBatch, BqliteError>,
    batch: EncodedBatch,
    selection: Option<RowSelection>,
    types: nat,
    fields: Seq<FieldView>,
    prefer_dict_string: bool,
) -> bool {
    let n = batch.columns@.len();
    let columns = selected_columns(batch, selection);
    if n != types {
        r matches Err(e) && e is Execution && e.text() == types_text(n, types)
    } else if n != fields.len() {
        r matches Err(e) && e is Execution && e.text() == fields_text(n, fields.len())
    } else {
        built_as(
            r,
            "materialize_selected: record-batch build failed: "@,
            batch_fields(fields, columns, prefer_dict_string),
            columns,
        )
    }
}

/// The selected rows of a source as a batch.
fn materialize_selected_inner(
    batch: &EncodedBatch,
    selection: Option<&RowSelection>,
    types: &Vec<BqlType>,
    schema: &SchemaSpec,
    metrics: &mut MaterializeMetrics,
    prefer_dict_string: bool,
) -> (r: Result<FilteredBatch, BqliteError>)
    requires
        batch.wf(),
        selects_within(owned(selection), batch.row_count),
    ensures
        selected_as(r, *batch, owned(selection), types@.len(), schema@, prefer_dict_string),
        keeps_metadata(r, *schema),
        counted(
            r,
            *old(metrics),
            *final(metrics),
            *batch,
            owned(selection),
            types@.len(),
            schema.fields@.len(),
        ),
{
    if batch.columns.len() != types.len() {
        return Err(
            BqliteError::Execution(
                two_numbers(
                    "materialize_selected: batch has ",
                    batch.columns.len(),
                    " columns but ",
                    types.len(),
                    " types were provided",
                ),
            ),
        );
    }
    if batch.columns.len() != schema.fields.len() {
        return Err(
            BqliteError::Execution(
                two_numbers(
                    "materialize_selected: batch has ",
                    batch.columns.len(),
                    " columns but schema has ",
                    schema.fields.len(),
                    " fields",
                ),
            ),
        );
    }
    let selected: u64 = match selection {
        Some(s) => s.len() as u64,
        None => batch.row_count as u64,
    };
    metrics.selected_rows_before_materialization =
    metrics.selected_rows_before_materialization.saturating_add(selected);
    match select_columns(batch, selection) {
        Ok(arrays) => {
            assert(contents(array_views(arrays@)).len() == arrays@.len());
            let r = build_preferred(
                schema,
                arrays,
                prefer_dict_string,
                "materialize_selected: record-batch build failed: ",
            );
            if let Ok(fb) = &r {
                metrics.materialized_rows =
                metrics.materialized_rows.saturating_add(num_rows(&fb.batch) as u64);
                metrics.bytes_materialized_after_filter =
                metrics.bytes_materialized_after_filter.saturating_add(
                    record_batch_bytes(&fb.batch),
                );
            }
            r
        },
        Err(e) => Err(e),
    }
}

/// Whether the counts say what was done. The number of bytes depends on how memory
/// was allocated: it grows by what Arrow says of the columns of the result.
pub open spec fn counted(
    r: Result<FilteredBatch, BqliteError>,
    before: MaterializeMetrics,
    after: MaterializeMetrics,
    batch: EncodedBatch,
    selection: Option<RowSelection>,
    types: nat,
    fields: nat,
) -> bool {
    let n = batch.columns@.len();
    if n != types || n != fields {
        after == before
    } else {
        &&& after.selected_rows_before_materialization == capped_sum(
            before.selected_rows_before_materialization,
            selected_rows(selection, batch.row_count).len() as int,
        )
        &&& after.selection_vector_materializations == before.selection_vector_materializations
        &&& match r {
            Ok(fb) => {
                &&& after.materialized_rows == capped_sum(
                    before.materialized_rows,
                    batch_view(fb.batch).rows as int,
                )
                &&& exists|bytes: u64|
                    #[trigger] measures(batch_view(fb.batch).columns, bytes)
                        && after.bytes_materialized_after_filter == capped_sum(
                        before.bytes_materialized_after_filter,
                        bytes as int,
                    )
            },
            Err(_) => {
                &&& after.materialized_rows == before.materialized_rows
                &&& after.bytes_materialized_after_filter == before.bytes_materialized_after_filter
            },
        }
    }
}

/// The selected rows of a source as a batch.
pub fn materialize_selected(
    batch: &EncodedBatch,
    selection: Option<&RowSelection>,
    types: &Vec<BqlType>,
    schema: &SchemaSpec,
) -> (r: Result<FilteredBatch, BqliteError>)
    requires
        batch.wf(),
        selects_within(owned(selection), batch.row_count),
    ensures
        selected_as(r, *batch, owned(selection), types@.len(), schema@, false),
        keeps_metadata(r, *schema),
{
    let mut metrics = MaterializeMetrics::new();
    materialize_selected_inner(batch, selection, types, schema, &mut metrics, false)
}

/// The selected rows of a source as a batch, which keeps dictionaries: where a column
/// is one, so is the field of the batch.
pub fn materialize_selected_dict_pushthrough(
    batch: &EncodedBatch,
    selection: Option<&RowSelection>,
    types: &Vec<BqlType>,
    schema: &SchemaSpec,
    metrics: &mut MaterializeMetrics,
) -> (r: Result<FilteredBatch, BqliteError>)
    requires
        batch.wf(),
        selects_within(owned(selection), batch.row_count),
    ensures
        selected_as(r, *batch, owned(selection), types@.len(), schema@, true),
        keeps_metadata(r, *schema),
        counted(
            r,
            *old(metrics),
            *final(metrics),
            *batch,
            owned(selection),
            types@.len(),
            schema.fields@.len(),
        ),
{
    materialize_selected_inner(batch, selection, types, schema, metrics, true)
}

/// The selected rows of a source as a batch, with what it cost.
pub fn materialize_selected_with_metrics(
    batch: &EncodedBatch,
    selection: Option<&RowSelection>,
    types: &Vec<BqlType>,
    schema: &SchemaSpec,
    metrics: &mut MaterializeMetrics,
) -> (r: Result<FilteredBatch, BqliteError>)
    requires
        batch.wf(),
        selects_within(owned(selection), batch.row_count),
    ensures
        selected_as(r, *batch, owned(selection), types@.len(), schema@, false),
        keeps_metadata(r, *schema),
        counted(
            r,
            *old(metrics),
            *final(metrics),
            *batch,
            owned(selection),
            types@.len(),
            schema.fields@.len(),
        ),
{
    materialize_selected_inner(batch, selection, types, schema, metrics, false)
}

/// Filtering by a mask that holds on ascending rows picks those rows.
proof fn lemma_kept_rows(
    cells: Seq<Option<CellView>>,
    mask: Seq<Option<CellView>>,
    rows: Seq<u32>,
    n: int,
    k: int,
)
    requires
        ascending(rows),
        0 <= k <= rows.len(),
        0 <= n <= mask.len(),
        mask.len() <= u32::MAX,
        forall|i: int|
            0 <= i < mask.len() ==> #[trigger] mask[i] == Some(
                CellView::Bool(rows.contains(i as u32)),
            ),
        forall|i: int| 0 <= i < k ==> (#[trigger] rows[i]) < n,
        forall|i: int| k <= i < rows.len() ==> (#[trigger] rows[i]) >= n,
    ensures
        kept_cells(cells, mask, n) == taken_cells(cells, rows.take(k)),
        kept_count(mask, n) == k,
    decreases n,
{
    if n > 0 {
        let _ = mask[n - 1];
        if k > 0 && rows[k - 1] == n - 1 {
            assert(rows[k - 1] == (n - 1) as u32);
            assert(rows.contains((n - 1) as u32));
            lemma_kept_rows(cells, mask, rows, n - 1, k - 1);
            assert(taken_cells(cells, rows.take(k)) =~= taken_cells(cells, rows.take(k - 1)).push(
                cells[n - 1],
            ));
        } else {
            assert(!rows.contains((n - 1) as u32)) by {
                if rows.contains((n - 1) as u32) {
                    let i = choose|i: int| 0 <= i < rows.len() && rows[i] == (n - 1) as u32;
                    assert(i < k);
                    assert(rows[i] < rows[k - 1]);
                }
            }
            lemma_kept_rows(cells, mask, rows, n - 1, k);
        }
    } else {
        if k > 0 {
            assert(rows[0] < 0);
        }
        assert(taken_cells(cells, rows.take(k)) =~= Seq::empty());
    }
}

/// The live rows of a batch as a batch of its own. Where all rows are live, that is
/// the batch itself, and nothing is counted.
pub fn materialize_filtered_batch(fb: FilteredBatch, metrics: &mut MaterializeMetrics) -> (r: Result<
    Batch,
    BqliteError,
>)
    requires
        fb.wf(),
    ensures
        match fb.selection {
            None => r == Ok::<Batch, BqliteError>(fb.batch) && *final(metrics) == *old(metrics),
            Some(sv) => if sv.indices@.len() == batch_view(fb.batch).rows {
                r == Ok::<Batch, BqliteError>(fb.batch) && *final(metrics) == *old(metrics)
            } else {
                &&& *final(metrics) == (MaterializeMetrics {
                    selection_vector_materializations: capped_sum(
                        old(metrics).selection_vector_materializations,
                        1,
                    ),
                    ..*old(metrics)
                })
                &&& if batch_view(fb.batch).rows > u32::MAX {
                    r matches Err(e) && e is Execution && e.text()
                        == "materialize_filtered_batch: row count "@ + decimal(
                        batch_view(fb.batch).rows,
                    ) + " exceeds u32"@
                } else {
                    r matches Ok(b) && holds_rows_of(b, fb.batch, sv.indices@)
                }
            },
        },
{
    let FilteredBatch { batch, selection } = fb;
    match selection {
        None => Ok(batch),
        Some(sv) => {
            let rows: usize = num_rows(&batch);
            if sv.len() == rows {
                return Ok(batch);
            }
            metrics.selection_vector_materializations =
            metrics.selection_vector_materializations.saturating_add(1);
            if rows as u64 > u32::MAX as u64 {
                let count: String = decimal_text(rows as u64);
                return Err(
                    BqliteError::Execution(
                        join3(
                            "materialize_filtered_batch: row count ",
                            count.as_str(),
                            " exceeds u32",
                        ),
                    ),
                );
            }
            let ghost indices = sv.indices@;
            let mask = selection_to_bool_array(&RowSelection::from_indices(sv), rows as u32);
            let bool_type = to_physical(BqlType::Bool);
            let filtered = filter_rows(&batch, &mask);
            proof {
                let cells = array_view(mask).cells;
                assert(bool_type == array_view(mask).data_type);
                if filtered is Ok {
                    let b = filtered->Ok_0;
                    assert forall|i: int| 0 <= i < batch_view(b).columns.len() implies {
                        &&& (#[trigger] batch_view(b).columns[i]).data_type == batch_view(
                            batch,
                        ).columns[i].data_type
                        &&& batch_view(b).columns[i].cells == taken_cells(
                            batch_view(batch).columns[i].cells,
                            indices,
                        )
                    } by {
                        lemma_kept_rows(
                            batch_view(batch).columns[i].cells,
                            cells,
                            indices,
                            rows as int,
                            indices.len() as int,
                        );
                        assert(indices.take(indices.len() as int) =~= indices);
                    }
                    lemma_kept_rows(Seq::empty(), cells, indices, rows as int, indices.len() as int);
                }
            }
            match filtered {
                Ok(b) => Ok(b),
                Err(e) => Err(BqliteError::Arrow(arrow_text(&e))),
            }
        },
    }
}

/// Whether a batch holds the rows of another one with the given numbers.
pub open spec fn holds_rows_of(b: Batch, of: Batch, rows: Seq<u32>) -> bool {
    &&& batch_view(b).fields == batch_view(of).fields
    &&& batch_view(b).rows == rows.len()
    &&& batch_view(b).columns.len() == batch_view(of).columns.len()
    &&& forall|i: int|
        0 <= i < batch_view(b).columns.len() ==> {
            &&& (#[trigger] batch_view(b).columns[i]).data_type == batch_view(
                of,
            ).columns[i].data_type
            &&& batch_view(b).columns[i].cells == taken_cells(
                batch_view(of).columns[i].cells,
                rows,
            )
        }
}

/// Consecutive rows of a source.
#[derive(Debug, Clone, Copy, PartialEq, Eq, Structural)]
pub struct SourceRun {
    pub source: u32,
    pub start: u32,
    pub len: u32,
}

/// A row of a source.
#[derive(Debug, Clone, Copy, PartialEq, Eq, Structural)]
pub struct RowRef {
    pub source: u32,
    pub row: u32,
}

/// The rows of a merge, in their order.
#[derive(Debug)]
pub enum StitchedRows {
    /// All of them, or the selected ones, are of one source.
    SingleSource { source: u32, selection: Option<RowSelection> },
    /// Runs of rows, each of one source.
    Runs(Vec<SourceRun>),
    /// Rows one by one.
    Indices(Vec<RowRef>),
}

/// What a merge produces: sources, and which of their rows come in which order.
#[derive(Debug)]
pub struct StitchedBatch {
    pub sources: Vec<EncodedBatch>,
    pub rows: StitchedRows,
}

/// Whether every source has columns of the right length.
pub open spec fn sources_wf(sources: Seq<EncodedBatch>) -> bool {
    forall|i: int| 0 <= i < sources.len() ==> (#[trigger] sources[i]).wf()
}

/// Whether runs consist of rows that their sources have.
pub open spec fn runs_within(sources: Seq<EncodedBatch>, runs: Seq<SourceRun>) -> bool {
    forall|i: int|
        0 <= i < runs.len() && (#[trigger] runs[i]).source < sources.len() ==> runs[i].start
            + runs[i].len <= sources[runs[i].source as int].row_count
}

/// Whether references refer to rows of sources.
pub open spec fn refs_within(sources: Seq<EncodedBatch>, refs: Seq<RowRef>) -> bool {
    forall|i: int|
        0 <= i < refs.len() ==> (#[trigger] refs[i]).source < sources.len() && refs[i].row
            < sources[refs[i].source as int].row_count
}

impl StitchedBatch {
    /// Rows are rows of their sources. A run or a whole selection may name a source
    /// that there is not.
    pub open spec fn wf(&self) -> bool {
        &&& sources_wf(self.sources@)
        &&& match self.rows {
            StitchedRows::SingleSource { source, selection } => source < self.sources@.len()
                ==> selects_within(selection, self.sources@[source as int].row_count),
            StitchedRows::Runs(runs) => runs_within(self.sources@, runs@),
            StitchedRows::Indices(refs) => refs_within(self.sources@, refs@),
        }
    }
}

impl StitchedBatch {
    /// Whether the rows are rows of their sources.
    pub fn is_consistent(&self) -> (r: bool)
        ensures
            r == self.wf(),
    {
        let mut i: usize = 0;
        while i < self.sources.len()
            invariant
                i <= self.sources@.len(),
                forall|j: int| 0 <= j < i ==> (#[trigger] self.sources@[j]).wf(),
            decreases self.sources@.len() - i,
        {
            if !self.sources[i].is_consistent() {
                assert(!self.sources@[i as int].wf());
                return false;
            }
            i = i + 1;
        }
        match &self.rows {
            StitchedRows::SingleSource { source, selection } => match selection {
                Some(s) if (*source as usize) < self.sources.len() => s.is_ascending()
                    && s.is_within(self.sources[*source as usize].row_count),
                _ => true,
            },
            StitchedRows::Runs(runs) => {
                let mut k: usize = 0;
                while k < runs.len()
                    invariant
                        k <= runs@.len(),
                        self.rows == StitchedRows::Runs(*runs),
                        runs_within(self.sources@, runs@.take(k as int)),
                    decreases runs@.len() - k,
                {
                    let run: SourceRun = runs[k];
                    if (run.source as usize) < self.sources.len() && run.start as u64
                        + run.len as u64 > self.sources[run.source as usize].row_count as u64 {
                        assert(runs@[k as int] == run);
                        return false;
                    }
                    proof {
                        let more = runs@.take(k + 1);
                        assert forall|j: int|
                            0 <= j < more.len() && (#[trigger] more[j]).source
                                < self.sources@.len() implies more[j].start + more[j].len
                            <= self.sources@[more[j].source as int].row_count by {
                            if j < k {
                                assert(runs@.take(k as int)[j] == more[j]);
                            }
                        }
                    }
                    k = k + 1;
                }
                assert(runs@.take(runs@.len() as int) =~= runs@);
                true
            },
            StitchedRows::Indices(refs) => {
                let mut k: usize = 0;
                while k < refs.len()
                    invariant
                        k <= refs@.len(),
                        self.rows == StitchedRows::Indices(*refs),
                        forall|j: int|
                            0 <= j < k ==> (#[trigger] refs@[j]).source < self.sources@.len()
                                && refs@[j].row < self.sources@[refs@[j].source as int].row_count,
                    decreases refs@.len() - k,
                {
                    let at: RowRef = refs[k];
                    if at.source as usize >= self.sources.len() || at.row
                        >= self.sources[at.source as usize].row_count {
                        assert(refs@[k as int] == at);
                        return false;
                    }
                    k = k + 1;
                }
                true
            },
        }
    }
}

/// The chunks of a column, one for each run.
pub open spec fn run_chunks(sources: Seq<EncodedBatch>, runs: Seq<SourceRun>, col: int) -> Seq<
    ChunkView,
> {
    Seq::new(
        runs.len(),
        |i: int|
            taken_chunk(
                chunk_view(sources[runs[i].source as int].columns@[col]),
                run_rows(RowRun { start: runs[i].start, len: runs[i].len }),
            ),
    )
}

/// The position after the last of the references, from `i` on, to the source that
/// `i` refers to.
pub open spec fn group_end(refs: Seq<RowRef>, i: int) -> int
    decreases refs.len() - i,
{
    if i + 1 < refs.len() && refs[i + 1].source == refs[i].source {
        group_end(refs, i + 1)
    } else {
        i + 1
    }
}

/// The rows of the references from `i` to before `end`.
pub open spec fn ref_rows(refs: Seq<RowRef>, i: int, end: int) -> Seq<u32> {
    Seq::new((end - i) as nat, |k: int| refs[i + k].row)
}

/// The chunks of a column, one for each group of references to one source, from `i`
/// on.
pub open spec fn ref_chunks(
    sources: Seq<EncodedBatch>,
    refs: Seq<RowRef>,
    col: int,
    i: int,
) -> Seq<ChunkView>
    decreases refs.len() - i,
{
    if !(0 <= i < group_end(refs, i) <= refs.len()) {
        Seq::empty()
    } else {
        let end = group_end(refs, i);
        seq![
            taken_chunk(
                chunk_view(sources[refs[i].source as int].columns@[col]),
                ref_rows(refs, i, end),
            ),
        ] + ref_chunks(sources, refs, col, end)
    }
}

/// The first column, from `i` on, whose chunks do not simply make up one column.
pub open spec fn first_unjoined(columns: Seq<Seq<ChunkView>>, i: int) -> Option<int>
    decreases columns.len() - i,
{
    if i >= columns.len() {
        None
    } else if join_outcome(columns[i]) is Joined {
        first_unjoined(columns, i + 1)
    } else {
        Some(i)
    }
}

/// The columns that chunks make up.
pub open spec fn joined_columns(columns: Seq<Seq<ChunkView>>) -> Seq<ColumnContent> {
    Seq::new(
        columns.len(),
        |i: int|
            ColumnContent {
                data_type: join_outcome(columns[i])->Joined_0,
                cells: join_outcome(columns[i])->Joined_1,
            },
    )
}

/// Whether a result is the batch that the chunks of its columns make up.
pub open spec fn assembled_as(
    r: Result<FilteredBatch, BqliteError>,
    fields: Seq<FieldView>,
    columns: Seq<Seq<ChunkView>>,
    prefer_dict_string: bool,
) -> bool {
    match first_unjoined(columns, 0) {
        None => built_as(
            r,
            "materialize_stitched: record-batch build failed: "@,
            batch_fields(fields, joined_columns(columns), prefer_dict_string),
            joined_columns(columns),
        ),
        Some(i) => r matches Err(e) && joined_as(Err(e), join_outcome(columns[i])),
    }
}

pub proof fn lemma_first_unjoined(columns: Seq<Seq<ChunkView>>, i: int)
    requires
        0 <= i <= columns.len(),
    ensures
        match first_unjoined(columns, i) {
            Some(k) => {
                &&& i <= k < columns.len()
                &&& !(join_outcome(columns[k]) is Joined)
                &&& forall|j: int| i <= j < k ==> join_outcome(#[trigger] columns[j]) is Joined
            },
            None => forall|j: int|
                i <= j < columns.len() ==> join_outcome(#[trigger] columns[j]) is Joined,
        },
    decreases columns.len() - i,
{
    if i < columns.len() && join_outcome(columns[i]) is Joined {
        lemma_first_unjoined(columns, i + 1);
    }
}

/// What the chunks of columns hold.
pub open spec fn column_chunks(columns: Seq<Vec<ArrayData>>) -> Seq<Seq<ChunkView>> {
    Seq::new(columns.len(), |i: int| chunk_views(columns[i]@))
}

/// Whether every chunk of every column shows plain values.
pub open spec fn legible_columns(columns: Seq<Seq<ChunkView>>) -> bool {
    forall|i: int| 0 <= i < columns.len() ==> all_legible(#[trigger] columns[i])
}

/// Each column out of its chunks.
pub fn concat_chunks(columns: &Vec<Vec<ArrayData>>) -> (r: Result<Vec<ArrayData>, BqliteError>)
    requires
        legible_columns(column_chunks(columns@)),
    ensures
        r matches Ok(out) ==> out@.len() == columns@.len(),
        match first_unjoined(column_chunks(columns@), 0) {
            None => r matches Ok(out) && contents(array_views(out@)) == joined_columns(
                column_chunks(columns@),
            ),
            Some(i) => r matches Err(e) && joined_as(
                Err(e),
                join_outcome(column_chunks(columns@)[i]),
            ),
        },
{
    let ghost views = column_chunks(columns@);
    proof {
        lemma_first_unjoined(views, 0);
    }
    let ghost first = first_unjoined(views, 0);
    let mut out: Vec<ArrayData> = Vec::new();
    let mut i: usize = 0;
    while i < columns.len()
        invariant
            i <= columns@.len(),
            views == column_chunks(columns@),
            legible_columns(views),
            first == first_unjoined(views, 0),
            match first {
                Some(k) => {
                    &&& 0 <= k < views.len()
                    &&& !(join_outcome(views[k]) is Joined)
                    &&& forall|j: int| 0 <= j < k ==> join_outcome(#[trigger] views[j]) is Joined
                },
                None => forall|j: int|
                    0 <= j < views.len() ==> join_outcome(#[trigger] views[j]) is Joined,
            },
            out@.len() == i,
            forall|j: int|
                0 <= j < i ==> joined_as(Ok(#[trigger] out@[j]), join_outcome(views[j])),
        decreases columns@.len() - i,
    {
        assert(views[i as int] == chunk_views(columns@[i as int]@));
        match concat_column(&columns[i]) {
            Ok(a) => {
                out.push(a);
            },
            Err(e) => {
                proof {
                    let _ = views[i as int];
                    if let Some(k) = first {
                        if k < i {
                            let _ = out@[k];
                        }
                    }
                }
                return Err(e);
            },
        }
        i = i + 1;
    }
    proof {
        match first {
            Some(k) => {
                let _ = out@[k];
            },
            None => {
                let got = contents(array_views(out@));
                let want = joined_columns(views);
                assert forall|j: int| 0 <= j < got.len() implies got[j] == want[j] by {
                    let _ = out@[j];
                    let _ = views[j];
                }
                assert(got =~= want);
            },
        }
    }
    Ok(out)
}

/// The given rows of a source, added to the chunks of each column.
fn push_reduced(
    columns: &mut Vec<Vec<ArrayData>>,
    source: &EncodedBatch,
    rows: &Vec<u32>,
) -> (r: Result<(), BqliteError>)
    requires
        source.wf(),
        source.columns@.len() == old(columns)@.len(),
        forall|i: int| 0 <= i < rows@.len() ==> (#[trigger] rows@[i]) < source.row_count,
    ensures
        r is Ok,
        final(columns)@.len() == old(columns)@.len(),
        forall|c: int|
            0 <= c < final(columns)@.len() ==> #[trigger] column_chunks(final(columns)@)[c]
                == column_chunks(old(columns)@)[c].push(
                taken_chunk(chunk_view(source.columns@[c]), rows@),
            ),
{
    let ghost before = column_chunks(columns@);
    let mut c: usize = 0;
    while c < source.columns.len()
        invariant
            c <= source.columns@.len(),
            source.wf(),
            source.columns@.len() == columns@.len() == before.len(),
            forall|i: int| 0 <= i < rows@.len() ==> (#[trigger] rows@[i]) < source.row_count,
            forall|d: int|
                0 <= d < columns@.len() ==> #[trigger] column_chunks(columns@)[d] == if d < c {
                    before[d].push(taken_chunk(chunk_view(source.columns@[d]), rows@))
                } else {
                    before[d]
                },
        decreases source.columns@.len() - c,
    {
        assert(array_view(source.columns@[c as int]).cells.len() == source.row_count);
        match reduce(&source.columns[c], rows) {
            Ok(a) => {
                let ghost list = columns@;
                columns[c].push(a);
                proof {
                    assert forall|d: int| 0 <= d < columns@.len() implies #[trigger] column_chunks(
                        columns@,
                    )[d] == if d < c + 1 {
                        before[d].push(taken_chunk(chunk_view(source.columns@[d]), rows@))
                    } else {
                        before[d]
                    } by {
                        let _ = column_chunks(list)[d];
                        if d == c {
                            assert(columns@[d]@ == list[d]@.push(a));
                            assert(chunk_views(columns@[d]@) =~= chunk_views(list[d]@).push(
                                chunk_view(a),
                            ));
                        } else {
                            assert(columns@[d] == list[d]);
                        }
                    }
                }
            },
            Err(e) => {
                return Err(e);
            },
        }
        c = c + 1;
    }
    Ok(())
}

/// No chunk yet for any of the columns.
fn no_chunks(n: usize) -> (r: Vec<Vec<ArrayData>>)
    ensures
        r@.len() == n,
        forall|c: int| 0 <= c < n ==> (#[trigger] column_chunks(r@)[c]).len() == 0,
{
    let mut r: Vec<Vec<ArrayData>> = Vec::new();
    let mut i: usize = 0;
    while i < n
        invariant
            i <= n,
            r@.len() == i,
            forall|c: int| 0 <= c < i ==> (#[trigger] r@[c])@.len() == 0,
        decreases n - i,
    {
        r.push(Vec::new());
        i = i + 1;
    }
    r
}

/// The rows of a run, one by one.
fn rows_of_run(start: u32, len: u32) -> (r: Vec<u32>)
    requires
        start + len <= u32::MAX,
    ensures
        r@ == run_rows(RowRun { start, len }),
{
    let mut r: Vec<u32> = Vec::new();
    let mut i: u32 = 0;
    while i < len
        invariant
            i <= len,
            start + len <= u32::MAX,
            r@.len() == i,
            forall|k: int| 0 <= k < i ==> #[trigger] r@[k] == start + k,
        decreases len - i,
    {
        r.push(start + i);
        i = i + 1;
    }
    assert(r@ =~= run_rows(RowRun { start, len }));
    r
}

/// The text that says that a run names a source that there is not.
pub open spec fn run_source_text(source: nat) -> Seq<char> {
    "materialize_stitched: run references source "@ + decimal(source)
}

/// The text that says that a source has the wrong number of columns.
pub open spec fn source_columns_text(columns: nat, types: nat) -> Seq<char> {
    "materialize_stitched: source has "@ + decimal(columns) + " columns but "@ + decimal(types)
        + " types provided"@
}

/// The error for a source with the wrong number of columns.
fn wrong_columns(columns: usize, types: usize) -> (e: BqliteError)
    ensures
        e is Execution,
        e.text() == source_columns_text(columns as nat, types as nat),
{
    BqliteError::Execution(
        two_numbers(
            "materialize_stitched: source has ",
            columns,
            " columns but ",
            types,
            " types provided",
        ),
    )
}

/// Whether a run is of a source with the right number of columns.
pub open spec fn run_fits(sources: Seq<EncodedBatch>, run: SourceRun, types: nat) -> bool {
    run.source < sources.len() && sources[run.source as int].columns@.len() == types
}

/// The first run, from `i` on, whose source is not there or has the wrong number of
/// columns.
pub open spec fn first_bad_run(
    sources: Seq<EncodedBatch>,
    runs: Seq<SourceRun>,
    types: nat,
    i: int,
) -> Option<int>
    decreases runs.len() - i,
{
    if i >= runs.len() {
        None
    } else if run_fits(sources, runs[i], types) {
        first_bad_run(sources, runs, types, i + 1)
    } else {
        Some(i)
    }
}

/// What a run whose source does not fit is answered.
pub open spec fn bad_run_text(sources: Seq<EncodedBatch>, run: SourceRun, types: nat) -> Seq<
    char,
> {
    if run.source < sources.len() {
        source_columns_text(sources[run.source as int].columns@.len(), types)
    } else {
        run_source_text(run.source as nat)
    }
}

/// The chunks of all columns over runs.
pub open spec fn all_run_chunks(
    sources: Seq<EncodedBatch>,
    runs: Seq<SourceRun>,
    types: nat,
) -> Seq<Seq<ChunkView>> {
    Seq::new(types, |col: int| run_chunks(sources, runs, col))
}

/// The chunks of each column over runs.
fn materialize_stitched_runs(sources: &Vec<EncodedBatch>, runs: &Vec<SourceRun>, types: usize) -> (r: Result<
    Vec<Vec<ArrayData>>,
    BqliteError,
>)
    requires
        sources_wf(sources@),
        runs_within(sources@, runs@),
    ensures
        match first_bad_run(sources@, runs@, types as nat, 0) {
            None => r matches Ok(columns) && column_chunks(columns@) == all_run_chunks(
                sources@,
                runs@,
                types as nat,
            ),
            Some(i) => r matches Err(e) && e is Execution && e.text() == bad_run_text(
                sources@,
                runs@[i],
                types as nat,
            ),
        },
{
    let ghost want = all_run_chunks(sources@, runs@, types as nat);
    let mut columns: Vec<Vec<ArrayData>> = no_chunks(types);
    let mut k: usize = 0;
    proof {
        assert forall|c: int| 0 <= c < types implies #[trigger] column_chunks(columns@)[c]
            == want[c].take(0) by {
            assert(column_chunks(columns@)[c] =~= want[c].take(0));
        }
    }
    while k < runs.len()
        invariant
            k <= runs@.len(),
            sources_wf(sources@),
            runs_within(sources@, runs@),
            want == all_run_chunks(sources@, runs@, types as nat),
            first_bad_run(sources@, runs@, types as nat, 0) == first_bad_run(
                sources@,
                runs@,
                types as nat,
                k as int,
            ),
            columns@.len() == types,
            forall|c: int|
                0 <= c < types ==> #[trigger] column_chunks(columns@)[c] == want[c].take(k as int),
        decreases runs@.len() - k,
    {
        let run: SourceRun = runs[k];
        let at: usize = run.source as usize;
        if at >= sources.len() {
            let count: String = decimal_text(run.source as u64);
            return Err(
                BqliteError::Execution(
                    join2("materialize_stitched: run references source ", count.as_str()),
                ),
            );
        }
        if sources[at].columns.len() != types {
            return Err(wrong_columns(sources[at].columns.len(), types));
        }
        assert(runs@[k as int].start + runs@[k as int].len <= sources@[at as int].row_count);
        assert(sources@[at as int].wf());
        let rows: Vec<u32> = rows_of_run(run.start, run.len);
        let ghost before = column_chunks(columns@);
        match push_reduced(&mut columns, &sources[at], &rows) {
            Ok(()) => {},
            Err(e) => {
                return Err(e);
            },
        }
        proof {
            assert forall|c: int| 0 <= c < types implies #[trigger] column_chunks(columns@)[c]
                == want[c].take(k + 1) by {
                assert(before[c] == want[c].take(k as int));
                assert(want[c].take(k + 1) =~= want[c].take(k as int).push(want[c][k as int]));
            }
        }
        k = k + 1;
    }
    proof {
        let got = column_chunks(columns@);
        assert forall|c: int| 0 <= c < got.len() implies got[c] == want[c] by {
            assert(want[c].take(runs@.len() as int) =~= want[c]);
        }
        assert(got =~= want);
    }
    Ok(columns)
}

/// The chunks of all columns over references.
pub open spec fn all_ref_chunks(
    sources: Seq<EncodedBatch>,
    refs: Seq<RowRef>,
    types: nat,
) -> Seq<Seq<ChunkView>> {
    Seq::new(types, |col: int| ref_chunks(sources, refs, col, 0))
}

/// The first reference, from `i` on, to a source with the wrong number of columns.
pub open spec fn first_bad_ref(
    sources: Seq<EncodedBatch>,
    refs: Seq<RowRef>,
    types: nat,
    i: int,
) -> Option<int>
    decreases refs.len() - i,
{
    if i >= refs.len() {
        None
    } else if sources[refs[i].source as int].columns@.len() == types {
        first_bad_ref(sources, refs, types, i + 1)
    } else {
        Some(i)
    }
}

/// The first reference, from the beginning, to a source with the wrong number of
/// columns.
fn find_bad_ref(sources: &Vec<EncodedBatch>, refs: &Vec<RowRef>, types: usize) -> (r: Option<usize>)
    requires
        refs_within(sources@, refs@),
    ensures
        match r {
            Some(i) => i < refs@.len() && first_bad_ref(sources@, refs@, types as nat, 0) == Some(
                i as int,
            ),
            None => {
                &&& first_bad_ref(sources@, refs@, types as nat, 0) is None
                &&& forall|i: int|
                    0 <= i < refs@.len() ==> sources@[(
                    #[trigger] refs@[i]).source as int].columns@.len() == types
            },
        },
{
    let mut i: usize = 0;
    while i < refs.len()
        invariant
            i <= refs@.len(),
            refs_within(sources@, refs@),
            first_bad_ref(sources@, refs@, types as nat, 0) == first_bad_ref(
                sources@,
                refs@,
                types as nat,
                i as int,
            ),
            forall|j: int|
                0 <= j < i ==> sources@[(#[trigger] refs@[j]).source as int].columns@.len()
                    == types,
        decreases refs@.len() - i,
    {
        let at: usize = refs[i].source as usize;
        assert(refs@[i as int].source < sources@.len());
        if sources[at].columns.len() != types {
            return Some(i);
        }
        i = i + 1;
    }
    None
}

/// The chunks of each column over references, one for each group of references to
/// one source.
fn materialize_stitched_indices(sources: &Vec<EncodedBatch>, refs: &Vec<RowRef>, types: usize) -> (r: Result<
    Vec<Vec<ArrayData>>,
    BqliteError,
>)
    requires
        sources_wf(sources@),
        refs_within(sources@, refs@),
    ensures
        match first_bad_ref(sources@, refs@, types as nat, 0) {
            None => r matches Ok(columns) && column_chunks(columns@) == all_ref_chunks(
                sources@,
                refs@,
                types as nat,
            ),
            Some(i) => r matches Err(e) && e is Execution && e.text() == source_columns_text(
                sources@[refs@[i].source as int].columns@.len(),
                types as nat,
            ),
        },
{
    if let Some(i) = find_bad_ref(sources, refs, types) {
        assert(refs@[i as int].source < sources@.len());
        return Err(wrong_columns(sources[refs[i].source as usize].columns.len(), types));
    }
    let ghost want = all_ref_chunks(sources@, refs@, types as nat);
    let mut columns: Vec<Vec<ArrayData>> = no_chunks(types);
    let mut cursor: usize = 0;
    proof {
        assert forall|c: int| 0 <= c < types implies want[c] == #[trigger] column_chunks(
            columns@,
        )[c] + ref_chunks(sources@, refs@, c, 0) by {
            assert(want[c] =~= column_chunks(columns@)[c] + ref_chunks(sources@, refs@, c, 0));
        }
    }
    while cursor < refs.len()
        invariant
            cursor <= refs@.len(),
            sources_wf(sources@),
            refs_within(sources@, refs@),
            forall|i: int|
                0 <= i < refs@.len() ==> sources@[(
                #[trigger] refs@[i]).source as int].columns@.len() == types,
            want.len() == types,
            columns@.len() == types,
            forall|c: int|
                0 <= c < types ==> want[c] == #[trigger] column_chunks(columns@)[c] + ref_chunks(
                    sources@,
                    refs@,
                    c,
                    cursor as int,
                ),
        decreases refs@.len() - cursor,
    {
        let start: usize = cursor;
        let at: u32 = refs[start].source;
        let mut rows: Vec<u32> = Vec::new();
        rows.push(refs[start].row);
        cursor = cursor + 1;
        while cursor < refs.len() && refs[cursor].source == at
            invariant
                start < cursor <= refs@.len(),
                at == refs@[start as int].source,
                at == refs@[cursor - 1].source,
                group_end(refs@, start as int) == group_end(refs@, cursor - 1),
                rows@.len() == cursor - start,
                forall|k: int| 0 <= k < rows@.len() ==> #[trigger] rows@[k] == refs@[start + k].row,
                forall|k: int| start <= k < cursor ==> (#[trigger] refs@[k]).source == at,
            decreases refs@.len() - cursor,
        {
            rows.push(refs[cursor].row);
            cursor = cursor + 1;
        }
        proof {
            assert(group_end(refs@, start as int) == cursor);
            assert(rows@ =~= ref_rows(refs@, start as int, cursor as int));
            assert(refs@[start as int].source < sources@.len());
            assert(sources@[at as int].wf());
            assert forall|i: int| 0 <= i < rows@.len() implies (#[trigger] rows@[i])
                < sources@[at as int].row_count by {
                let _ = refs@[start + i];
            }
        }
        let ghost before = column_chunks(columns@);
        match push_reduced(&mut columns, &sources[at as usize], &rows) {
            Ok(()) => {},
            Err(e) => {
                return Err(e);
            },
        }
        proof {
            assert forall|c: int| 0 <= c < types implies want[c] == #[trigger] column_chunks(
                columns@,
            )[c] + ref_chunks(sources@, refs@, c, cursor as int) by {
                let chunk = taken_chunk(
                    chunk_view(sources@[at as int].columns@[c]),
                    ref_rows(refs@, start as int, cursor as int),
                );
                assert(want[c] == before[c] + ref_chunks(sources@, refs@, c, start as int));
                assert(ref_chunks(sources@, refs@, c, start as int) == seq![chunk] + ref_chunks(
                    sources@,
                    refs@,
                    c,
                    cursor as int,
                ));
                assert(before[c] + (seq![chunk] + ref_chunks(sources@, refs@, c, cursor as int))
                    =~= before[c].push(chunk) + ref_chunks(sources@, refs@, c, cursor as int));
            }
        }
    }
    proof {
        let got = column_chunks(columns@);
        assert forall|c: int| 0 <= c < got.len() implies got[c] == want[c] by {
            assert(got[c] + ref_chunks(sources@, refs@, c, refs@.len() as int) =~= got[c]);
        }
        assert(got =~= want);
    }
    Ok(columns)
}

/// Whether a result is the batch that a merge stands for.
pub open spec fn stitched_as(
    r: Result<FilteredBatch, BqliteError>,
    stitched: StitchedBatch,
    types: nat,
    fields: Seq<FieldView>,
    prefer_dict_string: bool,
) -> bool {
    let sources = stitched.sources@;
    if fields.len() != types {
        r matches Err(e) && e is Execution && e.text() == "materialize_stitched: schema has "@
            + decimal(fields.len()) + " fields but "@ + decimal(types) + " types provided"@
    } else {
        match stitched.rows {
            StitchedRows::SingleSource { source, selection } => if source < sources.len() {
                selected_as(
                    r,
                    sources[source as int],
                    selection,
                    types,
                    fields,
                    prefer_dict_string,
                )
            } else {
                r matches Err(e) && e is Execution && e.text()
                    == "materialize_stitched: SingleSource references source "@ + decimal(
                    source as nat,
                ) + " out of "@ + decimal(sources.len())
            },
            StitchedRows::Runs(runs) => match first_bad_run(sources, runs@, types, 0) {
                None => assembled_as(
                    r,
                    fields,
                    all_run_chunks(sources, runs@, types),
                    prefer_dict_string,
                ),
                Some(i) => r matches Err(e) && e is Execution && e.text() == bad_run_text(
                    sources,
                    runs@[i],
                    types,
                ),
            },
            StitchedRows::Indices(refs) => match first_bad_ref(sources, refs@, types, 0) {
                None => assembled_as(
                    r,
                    fields,
                    all_ref_chunks(sources, refs@, types),
                    prefer_dict_string,
                ),
                Some(i) => r matches Err(e) && e is Execution && e.text() == source_columns_text(
                    sources[refs@[i].source as int].columns@.len(),
                    types,
                ),
            },
        }
    }
}

/// The chunks over runs of well-formed sources show plain values.
proof fn lemma_runs_legible(sources: Seq<EncodedBatch>, runs: Seq<SourceRun>, types: nat, i: int)
    requires
        sources_wf(sources),
        first_bad_run(sources, runs, types, i) is None,
        0 <= i <= runs.len(),
    ensures
        forall|k: int| i <= k < runs.len() ==> run_fits(sources, #[trigger] runs[k], types),
        i == 0 ==> legible_columns(all_run_chunks(sources, runs, types)),
    decreases runs.len() - i,
{
    if i < runs.len() {
        lemma_runs_legible(sources, runs, types, i + 1);
    }
    if i == 0 {
        let all = all_run_chunks(sources, runs, types);
        assert forall|c: int| 0 <= c < all.len() implies all_legible(#[trigger] all[c]) by {
            assert forall|k: int| 0 <= k < all[c].len() implies is_legible(
                (#[trigger] all[c][k]).view,
            ) by {
                let source = sources[runs[k].source as int];
                assert(run_fits(sources, runs[k], types));
                assert(source.wf());
                assert(is_legible(array_view(source.columns@[c])));
            }
        }
    }
}

/// The chunks over references to well-formed sources show plain values.
proof fn lemma_refs_legible(
    sources: Seq<EncodedBatch>,
    refs: Seq<RowRef>,
    types: nat,
    col: int,
    i: int,
)
    requires
        sources_wf(sources),
        refs_within(sources, refs),
        first_bad_ref(sources, refs, types, i) is None,
        0 <= i <= refs.len(),
        0 <= col < types,
    ensures
        all_legible(ref_chunks(sources, refs, col, i)),
    decreases refs.len() - i,
{
    if 0 <= i < group_end(refs, i) <= refs.len() {
        let end = group_end(refs, i);
        let source = sources[refs[i].source as int];
        assert(source.wf());
        assert(is_legible(array_view(source.columns@[col])));
        lemma_bad_ref_from(sources, refs, types, i, end);
        lemma_refs_legible(sources, refs, types, col, end);
        let chunks = ref_chunks(sources, refs, col, i);
        let rest = ref_chunks(sources, refs, col, end);
        assert forall|k: int| 0 <= k < chunks.len() implies is_legible(
            (#[trigger] chunks[k]).view,
        ) by {
            if k > 0 {
                assert(chunks[k] == rest[k - 1]);
            }
        }
    }
}

proof fn lemma_bad_ref_from(
    sources: Seq<EncodedBatch>,
    refs: Seq<RowRef>,
    types: nat,
    i: int,
    j: int,
)
    requires
        first_bad_ref(sources, refs, types, i) is None,
        i <= j <= refs.len(),
    ensures
        first_bad_ref(sources, refs, types, j) is None,
    decreases j - i,
{
    if i < j {
        lemma_bad_ref_from(sources, refs, types, i + 1, j);
    }
}

/// The batch that the chunks of its columns make up.
fn assemble(schema: &SchemaSpec, columns: &Vec<Vec<ArrayData>>, prefer_dict_string: bool) -> (r: Result<
    FilteredBatch,
    BqliteError,
>)
    requires
        schema.fields@.len() == columns@.len(),
        legible_columns(column_chunks(columns@)),
    ensures
        assembled_as(r, schema@, column_chunks(columns@), prefer_dict_string),
        keeps_metadata(r, *schema),
{
    match concat_chunks(columns) {
        Ok(arrays) => build_preferred(
            schema,
            arrays,
            prefer_dict_string,
            "materialize_stitched: record-batch build failed: ",
        ),
        Err(e) => Err(e),
    }
}

/// The batch that a merge stands for.
fn materialize_stitched_inner(
    stitched: &StitchedBatch,
    types: &Vec<BqlType>,
    schema: &SchemaSpec,
    prefer_dict_string: bool,
) -> (r: Result<FilteredBatch, BqliteError>)
    requires
        stitched.wf(),
    ensures
        stitched_as(r, *stitched, types@.len(), schema@, prefer_dict_string),
        keeps_metadata(r, *schema),
{
    if schema.fields.len() != types.len() {
        return Err(
            BqliteError::Execution(
                two_numbers(
                    "materialize_stitched: schema has ",
                    schema.fields.len(),
                    " fields but ",
                    types.len(),
                    " types provided",
                ),
            ),
        );
    }
    match &stitched.rows {
        StitchedRows::SingleSource { source, selection } => {
            let at: usize = *source as usize;
            if at >= stitched.sources.len() {
                let text: String = join3(
                    "materialize_stitched: SingleSource references source ",
                    decimal_text(at as u64).as_str(),
                    " out of ",
                );
                let count: String = decimal_text(stitched.sources.len() as u64);
                return Err(BqliteError::Execution(join2(text.as_str(), count.as_str())));
            }
            assert(stitched.sources@[at as int].wf());
            let mut metrics = MaterializeMetrics::new();
            let chosen: Option<&RowSelection> = match selection {
                Some(s) => Some(s),
                None => None,
            };
            assert(owned(chosen) == *selection);
            materialize_selected_inner(
                &stitched.sources[at],
                chosen,
                types,
                schema,
                &mut metrics,
                prefer_dict_string,
            )
        },
        StitchedRows::Runs(runs) => {
            match materialize_stitched_runs(&stitched.sources, runs, types.len()) {
                Ok(columns) => {
                    assert(column_chunks(columns@).len() == columns@.len());
                    proof {
                        lemma_runs_legible(stitched.sources@, runs@, types@.len(), 0);
                    }
                    assemble(schema, &columns, prefer_dict_string)
                },
                Err(e) => Err(e),
            }
        },
        StitchedRows::Indices(refs) => {
            match materialize_stitched_indices(&stitched.sources, refs, types.len()) {
                Ok(columns) => {
                    assert(column_chunks(columns@).len() == columns@.len());
                    proof {
                        assert forall|c: int| 0 <= c < columns@.len() implies all_legible(
                            #[trigger] column_chunks(columns@)[c],
                        ) by {
                            lemma_refs_legible(stitched.sources@, refs@, types@.len(), c, 0);
                        }
                    }
                    assemble(schema, &columns, prefer_dict_string)
                },
                Err(e) => Err(e),
            }
        },
    }
}

/// The batch that a merge stands for.
pub fn materialize_stitched(stitched: &StitchedBatch, types: &Vec<BqlType>, schema: &SchemaSpec) -> (r:
    Result<FilteredBatch, BqliteError>)
    requires
        stitched.wf(),
    ensures
        stitched_as(r, *stitched, types@.len(), schema@, false),
        keeps_metadata(r, *schema),
{
    materialize_stitched_inner(stitched, types, schema, false)
}

/// The batch that a merge stands for, which keeps dictionaries: where a column is
/// one, so is the field of the batch.
pub fn materialize_stitched_dict_pushthrough(
    stitched: &StitchedBatch,
    types: &Vec<BqlType>,
    schema: &SchemaSpec,
) -> (r: Result<FilteredBatch, BqliteError>)
    requires
        stitched.wf(),
    ensures
        stitched_as(r, *stitched, types@.len(), schema@, true),
        keeps_metadata(r, *schema),
{
    materialize_stitched_inner(stitched, types, schema, true)
}

/// The cells of a column that references refer to, in their order.
pub open spec fn ref_cells(sources: Seq<EncodedBatch>, refs: Seq<RowRef>, col: int) -> Seq<
    Option<CellView>,
> {
    Seq::new(
        refs.len(),
        |k: int|
            array_view(sources[refs[k].source as int].columns@[col]).cells[refs[k].row as int],
    )
}

/// The references to the rows of the first `n` runs.
pub open spec fn run_refs(runs: Seq<SourceRun>, n: int) -> Seq<RowRef>
    decreases n,
{
    if n <= 0 {
        Seq::empty()
    } else {
        run_refs(runs, n - 1) + Seq::new(
            runs[n - 1].len as nat,
            |k: int| RowRef { source: runs[n - 1].source, row: (runs[n - 1].start + k) as u32 },
        )
    }
}

/// Whether a column is not a dictionary in any source.
pub open spec fn plain_column(sources: Seq<EncodedBatch>, col: int) -> bool {
    forall|i: int|
        0 <= i < sources.len() ==> entry_type(
            array_view((#[trigger] sources[i]).columns@[col]).data_type,
        ) is None
}

proof fn lemma_unpacked_front(c: ChunkView, rest: Seq<ChunkView>, n: int)
    requires
        0 <= n <= rest.len(),
    ensures
        unpacked_cells(seq![c] + rest, n + 1) == plain_cells(c) + unpacked_cells(rest, n),
    decreases n,
{
    let all = seq![c] + rest;
    assert(all[n] == if n == 0 {
        c
    } else {
        rest[n - 1]
    });
    if n > 0 {
        lemma_unpacked_front(c, rest, n - 1);
        assert(unpacked_cells(all, n + 1) =~= plain_cells(c) + unpacked_cells(rest, n));
    } else {
        assert(unpacked_cells(all, 0) =~= Seq::empty());
        assert(unpacked_cells(all, 1) =~= plain_cells(c) + unpacked_cells(rest, 0));
    }
}

pub proof fn lemma_group_end(refs: Seq<RowRef>, i: int)
    requires
        0 <= i < refs.len(),
    ensures
        i < group_end(refs, i) <= refs.len(),
        forall|k: int| i <= k < group_end(refs, i) ==> (#[trigger] refs[k]).source == refs[i].source,
    decreases refs.len() - i,
{
    if i + 1 < refs.len() && refs[i + 1].source == refs[i].source {
        lemma_group_end(refs, i + 1);
    }
}

proof fn lemma_refs_in_order(sources: Seq<EncodedBatch>, refs: Seq<RowRef>, col: int, i: int)
    requires
        plain_column(sources, col),
        refs_within(sources, refs),
        0 <= i <= refs.len(),
    ensures
        unpacked_cells(
            ref_chunks(sources, refs, col, i),
            ref_chunks(sources, refs, col, i).len() as int,
        ) == ref_cells(sources, refs, col).skip(i),
    decreases refs.len() - i,
{
    let cells = ref_cells(sources, refs, col);
    let chunks = ref_chunks(sources, refs, col, i);
    if i < refs.len() {
        lemma_group_end(refs, i);
        let end = group_end(refs, i);
        let rest = ref_chunks(sources, refs, col, end);
        let source = sources[refs[i].source as int];
        let c = taken_chunk(chunk_view(source.columns@[col]), ref_rows(refs, i, end));
        lemma_refs_in_order(sources, refs, col, end);
        assert(chunks == seq![c] + rest);
        lemma_unpacked_front(c, rest, rest.len() as int);
        assert(plain_cells(c) =~= cells.subrange(i, end)) by {
            assert(refs[i].source < sources.len());
            assert forall|k: int| 0 <= k < end - i implies plain_cells(c)[k] == cells.subrange(
                i,
                end,
            )[k] by {
                let _ = refs[i + k];
            }
        }
        assert(cells.skip(i) =~= cells.subrange(i, end) + cells.skip(end));
    } else {
        assert(chunks =~= Seq::empty());
        assert(cells.skip(i) =~= Seq::empty());
    }
}

/// A batch made of rows one by one holds, in a plain column, exactly the rows that
/// are referred to, in their order.
pub proof fn theorem_refs_in_order(sources: Seq<EncodedBatch>, refs: Seq<RowRef>, col: int)
    requires
        plain_column(sources, col),
        refs_within(sources, refs),
    ensures
        unpacked_cells(
            ref_chunks(sources, refs, col, 0),
            ref_chunks(sources, refs, col, 0).len() as int,
        ) == ref_cells(sources, refs, col),
{
    lemma_refs_in_order(sources, refs, col, 0);
    assert(ref_cells(sources, refs, col).skip(0) =~= ref_cells(sources, refs, col));
}

/// A batch made of runs holds, in a plain column, exactly the rows of the runs, in
/// their order.
pub proof fn theorem_runs_in_order(sources: Seq<EncodedBatch>, runs: Seq<SourceRun>, col: int, n: int)
    requires
        plain_column(sources, col),
        runs_within(sources, runs),
        forall|i: int| 0 <= i < runs.len() ==> (#[trigger] runs[i]).source < sources.len(),
        0 <= n <= runs.len(),
    ensures
        unpacked_cells(run_chunks(sources, runs, col), n) == ref_cells(
            sources,
            run_refs(runs, n),
            col,
        ),
    decreases n,
{
    if n > 0 {
        theorem_runs_in_order(sources, runs, col, n - 1);
        let run = runs[n - 1];
        let source = sources[run.source as int];
        let c = run_chunks(sources, runs, col)[n - 1];
        assert(run.start + run.len <= source.row_count);
        assert(ref_cells(sources, run_refs(runs, n), col) =~= ref_cells(
            sources,
            run_refs(runs, n - 1),
            col,
        ) + plain_cells(c));
    } else {
        assert(ref_cells(sources, run_refs(runs, n), col) =~= Seq::empty());
    }
}

} // verus!
