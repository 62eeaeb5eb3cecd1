//! The boundary to Arrow.
//!
//! Arrays and record batches are Arrow's own. Their contents have a name here,
//! [`array_view`] and [`batch_view`], and the functions below that reach into
//! Arrow state over those names what the Arrow function does. Nothing else in
//! the library calls Arrow.

use std::collections::HashMap;
use std::sync::Arc;

use arrow::array::{Array, ArrayData, ArrayRef, AsArray, BooleanArray, DictionaryArray, Int64Array,
    StringArray, StringViewArray, TimestampNanosecondArray, UInt8Array, UInt32Array, make_array,
    new_null_array};
use arrow::buffer::Buffer;
use arrow::compute::{and_kleene, cast, concat_batches, filter_record_batch, interleave, take};
use arrow::datatypes::{DataType, Field, Int32Type, Schema, TimeUnit, UInt8Type};
use arrow::error::ArrowError;
use arrow::record_batch::RecordBatch;
use vstd::prelude::*;

use crate::schema::{BqlType, ColumnView, OperatorSchema};
use crate::text::text_views;

verus! {

/// Arrow's record batch.
#[verifier::external_body]
pub struct Batch {
    pub inner: RecordBatch,
}

/// Arrow's array, independent of its type.
#[verifier::external_type_specification]
#[verifier::external_body]
pub struct ExArrayData(ArrayData);

/// Arrow's physical type.
#[verifier::external_type_specification]
#[verifier::external_body]
pub struct ExDataType(DataType);

/// Arrow's schema.
#[verifier::external_type_specification]
#[verifier::external_body]
pub struct ExSchema(Schema);

/// Arrow's error.
#[verifier::external_type_specification]
#[verifier::external_body]
pub struct ExArrowError(ArrowError);

/// The physical types that operators tell apart.
#[derive(Debug, Clone, Copy, PartialEq, Eq, Structural)]
pub enum DataKind {
    Utf8View,
    Utf8,
    Int64,
    Float64,
    Boolean,
    TimestampNs,
    /// A dictionary with `Int32` keys.
    DictInt32,
    /// A dictionary with `UInt8` keys and `Utf8View` values.
    DictUInt8Utf8View,
    /// Any other dictionary.
    Dictionary,
    /// Any other type of numbers, and the type of arrays that hold nothing but nulls.
    Number,
    /// Any other type of times, dates or spans of time.
    Temporal,
    /// Any other type of texts or bytes.
    Bytes,
    Other,
}

/// One value of an array. The value of a dictionary array is the entry that its
/// key names.
pub enum CellView {
    /// A value of a `Utf8View` or `Utf8` array.
    Str(Seq<char>),
    Int(i64),
    Float(u64),
    Bool(bool),
    Time(i64),
    /// A dictionary entry that is itself null.
    NullEntry,
    /// A value of a type that operators do not look into.
    Opaque(int),
}

/// The content of an array. A cell is `None` where the array is null.
pub struct ArrayView {
    pub data_type: DataType,
    pub cells: Seq<Option<CellView>>,
    /// The values of an `Int64` or nanosecond timestamp array, with an
    /// arbitrary value where the array is null. Empty for any other array.
    pub raw: Seq<i64>,
}

/// A field of a schema.
pub struct FieldView {
    pub name: Seq<char>,
    pub data_type: DataType,
    pub nullable: bool,
}

/// Metadata: names with what is noted under them, of a schema and of each of its fields.
pub struct MetadataView {
    pub schema: Set<(Seq<char>, Seq<char>)>,
    pub fields: Seq<Set<(Seq<char>, Seq<char>)>>,
}

/// The content of a record batch.
pub struct BatchView {
    pub fields: Seq<FieldView>,
    pub columns: Seq<ArrayView>,
    pub rows: nat,
}

/// What an array holds.
pub uninterp spec fn array_view(a: ArrayData) -> ArrayView;

/// What a record batch holds.
pub uninterp spec fn batch_view(b: Batch) -> BatchView;

/// The fields of a schema.
pub uninterp spec fn schema_view(s: Schema) -> Seq<FieldView>;

/// The metadata of a schema.
pub uninterp spec fn schema_metadata(s: Schema) -> MetadataView;

/// The metadata of the schema of a record batch.
pub uninterp spec fn batch_metadata(b: Batch) -> MetadataView;

/// What becomes of a cell when an array of the first type is converted to a plain
/// type; `None` where that fails. What becomes of a null rests on the types alone.
pub uninterp spec fn cast_cell(from: DataType, cell: Option<CellView>, to: DataType) -> Option<
    Option<CellView>,
>;

/// The type of the entries of a dictionary type; `None` for any other type.
pub uninterp spec fn entry_type(t: DataType) -> Option<DataType>;

/// The lengths of the buffers of an array, or of the entries of a dictionary.
pub uninterp spec fn buffer_lengths(a: ArrayData) -> Seq<nat>;

/// The lengths of the buffers of each column of a record batch.
pub uninterp spec fn column_buffers(b: Batch) -> Seq<Seq<nat>>;

/// The entries of a dictionary array with text entries, used or not.
pub uninterp spec fn dict_entries(a: ArrayData) -> Seq<Option<Seq<char>>>;

/// Which of the kinds a physical type is.
pub uninterp spec fn type_kind(t: DataType) -> DataKind;

/// The physical type that stands for a logical one.
pub uninterp spec fn physical_type(t: BqlType) -> DataType;

/// A field of a schema to be built.
#[derive(Debug)]
pub struct FieldSpec {
    pub name: String,
    pub data_type: DataType,
    pub nullable: bool,
    pub metadata: Vec<(String, String)>,
}

/// A schema to be built.
#[derive(Debug)]
pub struct SchemaSpec {
    pub fields: Vec<FieldSpec>,
    pub metadata: Vec<(String, String)>,
}

impl View for FieldSpec {
    type V = FieldView;

    open spec fn view(&self) -> FieldView {
        FieldView { name: self.name@, data_type: self.data_type, nullable: self.nullable }
    }
}

impl View for SchemaSpec {
    type V = Seq<FieldView>;

    open spec fn view(&self) -> Seq<FieldView> {
        Seq::new(self.fields@.len(), |i: int| self.fields@[i]@)
    }
}

/// The texts of a list of metadata.
pub open spec fn text_pairs(list: Seq<(String, String)>) -> Seq<(Seq<char>, Seq<char>)> {
    Seq::new(list.len(), |i: int| (list[i].0@, list[i].1@))
}

/// Whether no name occurs twice in a list of metadata.
pub open spec fn names_once(pairs: Seq<(Seq<char>, Seq<char>)>) -> bool {
    forall|i: int, j: int|
        0 <= i < j < pairs.len() ==> (#[trigger] pairs[i]).0 != (#[trigger] pairs[j]).0
}

impl SchemaSpec {
    /// The metadata.
    pub open spec fn notes(&self) -> MetadataView {
        MetadataView {
            schema: text_pairs(self.metadata@).to_set(),
            fields: Seq::new(
                self.fields@.len(),
                |i: int| text_pairs(self.fields@[i].metadata@).to_set(),
            ),
        }
    }

    /// Whether no name occurs twice in the metadata of the schema, or of a field.
    pub open spec fn notes_once(&self) -> bool {
        &&& names_once(text_pairs(self.metadata@))
        &&& forall|i: int|
            0 <= i < self.fields@.len() ==> names_once(
                text_pairs((#[trigger] self.fields@[i]).metadata@),
            )
    }
}

/// The contents of a list of arrays.
pub open spec fn array_views(arrays: Seq<ArrayData>) -> Seq<ArrayView> {
    Seq::new(arrays.len(), |i: int| array_view(arrays[i]))
}

/// Whether an array has no null.
pub open spec fn no_nulls(cells: Seq<Option<CellView>>) -> bool {
    forall|i: int| 0 <= i < cells.len() ==> (#[trigger] cells[i]) is Some
}

/// Whether columns make up a batch: there is one for each field and at least one
/// in all, they are equally long, and each has its field's type and is null only
/// where that is allowed.
pub open spec fn buildable(fields: Seq<FieldView>, columns: Seq<ArrayView>) -> bool {
    &&& fields.len() == columns.len()
    &&& columns.len() > 0
    &&& forall|i: int|
        0 <= i < columns.len() ==> {
            &&& (#[trigger] columns[i]).cells.len() == columns[0].cells.len()
            &&& columns[i].data_type == fields[i].data_type
            &&& fields[i].nullable || no_nulls(columns[i].cells)
        }
}

/// The kinds whose arrays hold one plain value per row.
pub open spec fn is_plain(k: DataKind) -> bool {
    k == DataKind::Utf8View || k == DataKind::Int64 || k == DataKind::Float64 || k
        == DataKind::Boolean || k == DataKind::TimestampNs
}

/// The kind of the physical type that stands for a logical one.
pub open spec fn kind_of_logical(t: BqlType) -> DataKind {
    match t {
        BqlType::String => DataKind::Utf8View,
        BqlType::Int => DataKind::Int64,
        BqlType::Float => DataKind::Float64,
        BqlType::Bool => DataKind::Boolean,
        BqlType::Timestamp => DataKind::TimestampNs,
    }
}

/// The position of the first field with a name, or the number of fields.
pub open spec fn field_position(fields: Seq<FieldView>, name: Seq<char>) -> int
    decreases fields.len(),
{
    if fields.len() == 0 {
        0
    } else if fields[0].name == name {
        0
    } else {
        1 + field_position(fields.drop_first(), name)
    }
}

/// The first column with a name.
pub open spec fn named_column(b: BatchView, name: Seq<char>) -> Option<ArrayView> {
    let i = field_position(b.fields, name);
    if i < b.fields.len() {
        Some(b.columns[i])
    } else {
        None
    }
}

/// Optional strings as cells.
pub open spec fn text_cells(values: Seq<Option<String>>) -> Seq<Option<CellView>> {
    Seq::new(
        values.len(),
        |i: int|
            match values[i] {
                Some(s) => Some(CellView::Str(s@)),
                None => None,
            },
    )
}

/// Optional integers as cells.
pub open spec fn int_cells(values: Seq<Option<i64>>) -> Seq<Option<CellView>> {
    Seq::new(
        values.len(),
        |i: int|
            match values[i] {
                Some(v) => Some(CellView::Int(v)),
                None => None,
            },
    )
}

/// The number of rows, as Arrow's `RecordBatch::num_rows` reports it.
#[verifier::external_body]
pub(crate) fn num_rows(b: &Batch) -> (n: usize)
    ensures
        n == batch_view(*b).rows,
{
    b.inner.num_rows()
}

/// The first column with a name, by Arrow's `RecordBatch::column_by_name`. Every
/// column of a batch has as many cells as the batch has rows.
#[verifier::external_body]
pub(crate) fn column_named(b: &Batch, name: &str) -> (r: Option<ArrayData>)
    ensures
        match r {
            Some(a) => named_column(batch_view(*b), name@) == Some(array_view(a))
                && array_view(a).cells.len() == batch_view(*b).rows,
            None => named_column(batch_view(*b), name@) is None,
        },
{
    b.inner.column_by_name(name).map(|c| c.to_data())
}

/// The number of columns, by Arrow's `RecordBatch::num_columns`.
#[verifier::external_body]
pub(crate) fn num_columns(b: &Batch) -> (n: usize)
    ensures
        n == batch_view(*b).columns.len(),
{
    b.inner.num_columns()
}

/// The column at a position, by Arrow's `RecordBatch::column`. Every column of a
/// batch has as many cells as the batch has rows.
#[verifier::external_body]
pub(crate) fn column_at(b: &Batch, i: usize) -> (r: ArrayData)
    requires
        i < batch_view(*b).columns.len(),
    ensures
        array_view(r) == batch_view(*b).columns[i as int],
        array_view(r).cells.len() == batch_view(*b).rows,
        buffer_lengths(r) == column_buffers(*b)[i as int],
{
    b.inner.column(i).to_data()
}

/// Whether an array is of a type, by comparing with Arrow's
/// `ArrayData::data_type`.
#[verifier::external_body]
pub(crate) fn has_type(a: &ArrayData, t: &DataType) -> (r: bool)
    ensures
        r == (array_view(*a).data_type == *t),
{
    a.data_type() == t
}

/// Whether a kind is one of a dictionary.
pub open spec fn is_dictionary(k: DataKind) -> bool {
    k == DataKind::DictInt32 || k == DataKind::DictUInt8Utf8View || k == DataKind::Dictionary
}

/// Whether there is only one type of a kind.
pub open spec fn is_sole(k: DataKind) -> bool {
    k == DataKind::Utf8View || k == DataKind::Utf8 || k == DataKind::Int64 || k
        == DataKind::Float64 || k == DataKind::Boolean || k == DataKind::DictUInt8Utf8View
}

/// Which kind a type is of, by the variant of Arrow's `DataType`.
#[verifier::external_body]
pub(crate) fn kind_of_type(t: &DataType) -> (r: DataKind)
    ensures
        r == type_kind(*t),
        is_dictionary(r) == (entry_type(*t) is Some),
        is_sole(r) ==> forall|u: DataType| #[trigger] type_kind(u) == r ==> u == *t,
{
    match t {
        DataType::Utf8View => DataKind::Utf8View,
        DataType::Utf8 => DataKind::Utf8,
        DataType::Int64 => DataKind::Int64,
        DataType::Float64 => DataKind::Float64,
        DataType::Boolean => DataKind::Boolean,
        DataType::Timestamp(TimeUnit::Nanosecond, _) => DataKind::TimestampNs,
        DataType::Dictionary(k, _) if **k == DataType::Int32 => DataKind::DictInt32,
        DataType::Dictionary(k, v) if (&**k, &**v) == (&DataType::UInt8, &DataType::Utf8View) => DataKind::DictUInt8Utf8View,
        DataType::Dictionary(_, _) => DataKind::Dictionary,
        t if t.is_numeric() || t.is_null() => DataKind::Number,
        t if t.is_temporal() => DataKind::Temporal,
        t if t.is_string() || t.is_binary() => DataKind::Bytes,
        _ => DataKind::Other,
    }
}

/// Which kind of type an array is of.
pub(crate) fn data_kind(a: &ArrayData) -> (r: DataKind)
    ensures
        r == type_kind(array_view(*a).data_type),
        is_sole(r) ==> forall|t: DataType| #[trigger]
            type_kind(t) == r ==> t == array_view(*a).data_type,
{
    kind_of_type(&type_of(a))
}

/// The kind of the values that an array of a type shows: that of the entries, if the
/// type is a dictionary.
pub open spec fn shown_kind(t: DataType) -> DataKind {
    match entry_type(t) {
        Some(e) => type_kind(e),
        None => type_kind(t),
    }
}

/// Which kind of values an array shows.
pub(crate) fn kind_shown(a: &ArrayData) -> (r: DataKind)
    ensures
        r == shown_kind(array_view(*a).data_type),
        entry_type(array_view(*a).data_type) matches Some(e) ==> is_dictionary(r) == (entry_type(
            e,
        ) is Some),
{
    match dict_entry_type(a) {
        Some(t) => kind_of_type(&t),
        None => data_kind(a),
    }
}

/// Whether an array shows plain values, as the columns of logical types do.
pub open spec fn is_legible(v: ArrayView) -> bool {
    is_plain(shown_kind(v.data_type))
}

/// Whether an array shows plain values.
pub(crate) fn shows_plain(a: &ArrayData) -> (r: bool)
    ensures
        r == is_legible(array_view(*a)),
{
    match kind_shown(a) {
        DataKind::Utf8View | DataKind::Int64 | DataKind::Float64 | DataKind::Boolean
        | DataKind::TimestampNs => true,
        _ => false,
    }
}

/// Whether a kind is one of numbers, times, texts or bytes: no value of it holds other
/// values.
pub open spec fn is_flat(k: DataKind) -> bool {
    ||| is_plain(k)
    ||| k == DataKind::Utf8
    ||| k == DataKind::Number
    ||| k == DataKind::Temporal
    ||| k == DataKind::Bytes
}

/// Whether what becomes of the cells of a type rests on the cells alone when they are
/// converted to a plain type. The text of a time may not exist, so that of a dictionary
/// of times may rest on entries that no row names.
pub open spec fn is_sure(from: DataType, to: DataType) -> bool {
    &&& is_flat(shown_kind(from))
    &&& entry_type(from) is Some && shown_kind(from) == DataKind::Temporal ==> type_kind(to)
        != DataKind::Utf8View
}

/// Whether the buffers of an array are short enough for a conversion: texts and bytes
/// stay in their buffers when they become text, and one of those can hold less than
/// four gigabytes.
pub open spec fn has_room(from: DataType, buffers: Seq<nat>, to: DataType) -> bool {
    type_kind(to) == DataKind::Utf8View && (shown_kind(from) == DataKind::Utf8 || shown_kind(from)
        == DataKind::Bytes) ==> forall|i: int|
        0 <= i < buffers.len() ==> (#[trigger] buffers[i]) < u32::MAX
}

/// The lengths of the buffers of an array, or of the entries of a dictionary, by Arrow's
/// `ArrayData::buffers` on the array or on its `ArrayData::child_data`.
#[verifier::external_body]
pub(crate) fn buffers_of(a: &ArrayData) -> (r: Vec<usize>)
    ensures
        buffer_lengths(*a) == r@.map_values(|n: usize| n as nat),
{
    let shown: &ArrayData = match a.data_type() {
        DataType::Dictionary(_, _) => &a.child_data()[0],
        _ => a,
    };
    shown.buffers().iter().map(|b| b.len()).collect()
}

/// Whether the buffers of an array are short enough for a conversion.
pub(crate) fn fits_in(a: &ArrayData, t: &DataType) -> (r: bool)
    ensures
        r == has_room(array_view(*a).data_type, buffer_lengths(*a), *t),
{
    let shown: DataKind = kind_shown(a);
    if kind_of_type(t) != DataKind::Utf8View || (shown != DataKind::Utf8 && shown
        != DataKind::Bytes) {
        return true;
    }
    let lengths: Vec<usize> = buffers_of(a);
    let mut i: usize = 0;
    while i < lengths.len()
        invariant
            i <= lengths@.len(),
            type_kind(*t) == DataKind::Utf8View,
            shown == shown_kind(array_view(*a).data_type),
            shown == DataKind::Utf8 || shown == DataKind::Bytes,
            buffer_lengths(*a) == lengths@.map_values(|n: usize| n as nat),
            forall|j: int| 0 <= j < i ==> (#[trigger] buffer_lengths(*a)[j]) < u32::MAX,
        decreases lengths@.len() - i,
    {
        assert(buffer_lengths(*a)[i as int] == lengths@[i as int]);
        if lengths[i] >= u32::MAX as usize {
            assert(!(buffer_lengths(*a)[i as int] < u32::MAX));
            return false;
        }
        i = i + 1;
    }
    true
}

/// The type of the entries of a dictionary array, by the variant of Arrow's
/// `DataType`; `None` for any other array.
#[verifier::external_body]
pub(crate) fn dict_entry_type(a: &ArrayData) -> (r: Option<DataType>)
    ensures
        r == entry_type(array_view(*a).data_type),
        match r {
            Some(t) => {
                &&& is_dictionary(type_kind(array_view(*a).data_type))
                &&& type_kind(array_view(*a).data_type) == DataKind::DictUInt8Utf8View
                    ==> type_kind(t) == DataKind::Utf8View
            },
            None => !is_dictionary(type_kind(array_view(*a).data_type)),
        },
{
    match a.data_type() {
        DataType::Dictionary(_, v) => Some((**v).clone()),
        _ => None,
    }
}

/// The type of an array, by Arrow's `ArrayData::data_type`.
#[verifier::external_body]
pub(crate) fn type_of(a: &ArrayData) -> (r: DataType)
    ensures
        r == array_view(*a).data_type,
{
    a.data_type().clone()
}

/// The number of bytes that an array takes up, by Arrow's
/// `Array::get_array_memory_size`. It depends on how the memory was allocated.
#[verifier::external_body]
pub(crate) fn array_bytes(a: &ArrayData) -> (r: usize) {
    make_array(a.clone()).get_array_memory_size()
}

/// The number of rows of an array, by Arrow's `ArrayData::len`.
#[verifier::external_body]
pub(crate) fn array_len(a: &ArrayData) -> (n: usize)
    ensures
        n == array_view(*a).cells.len(),
{
    a.len()
}

/// The number of nulls of an array of a plain kind, by Arrow's
/// `ArrayData::null_count`.
#[verifier::external_body]
pub(crate) fn null_count(a: &ArrayData) -> (n: usize)
    requires
        is_plain(type_kind(array_view(*a).data_type)),
    ensures
        n == 0 <==> no_nulls(array_view(*a).cells),
{
    a.null_count()
}

/// The same array again, by the `Clone` of Arrow's `ArrayData`.
#[verifier::external_body]
pub(crate) fn copy_array(a: &ArrayData) -> (r: ArrayData)
    ensures
        array_view(r) == array_view(*a),
        type_kind(array_view(*a).data_type) == DataKind::DictUInt8Utf8View ==> dict_entries(r)
            == dict_entries(*a),
{
    a.clone()
}

/// The cells with the given numbers.
pub open spec fn taken_cells(cells: Seq<Option<CellView>>, rows: Seq<u32>) -> Seq<
    Option<CellView>,
> {
    Seq::new(rows.len(), |i: int| cells[rows[i] as int])
}

/// An array reduced to the rows with the given numbers.
pub open spec fn taken_view(v: ArrayView, rows: Seq<u32>) -> ArrayView {
    ArrayView {
        data_type: v.data_type,
        cells: taken_cells(v.cells, rows),
        raw: if type_kind(v.data_type) == DataKind::Int64 || type_kind(v.data_type)
            == DataKind::TimestampNs {
            Seq::new(rows.len(), |i: int| v.raw[rows[i] as int])
        } else {
            v.raw
        },
    }
}

/// The rows of an array with the given numbers, by Arrow's `take`. A dictionary
/// keeps its entries.
#[verifier::external_body]
pub(crate) fn take_rows(a: &ArrayData, rows: Vec<u32>) -> (r: Result<ArrayData, ArrowError>)
    requires
        is_legible(array_view(*a)),
        forall|i: int| 0 <= i < rows@.len() ==> (#[trigger] rows@[i]) < array_view(*a).cells.len(),
    ensures
        match r {
            Ok(b) => {
                &&& array_view(b) == taken_view(array_view(*a), rows@)
                &&& type_kind(array_view(*a).data_type) == DataKind::DictUInt8Utf8View
                    ==> dict_entries(b) == if rows@.len() > 0 {
                    dict_entries(*a)
                } else {
                    Seq::empty()
                }
            },
            Err(_) => false,
        },
{
    take(make_array(a.clone()).as_ref(), &UInt32Array::from(rows), None).map(|b| b.to_data())
}

/// The cells of the first `n` arrays, one array after another.
pub open spec fn concat_cells(arrays: Seq<ArrayView>, n: int) -> Seq<Option<CellView>>
    decreases n,
{
    if n <= 0 {
        Seq::empty()
    } else {
        concat_cells(arrays, n - 1) + arrays[n - 1].cells
    }
}

/// Arrays of plain kinds joined one after another, by Arrow's `concat`, which fails
/// where there is none and where they are not of one type.
#[verifier::external_body]
pub(crate) fn join_arrays(arrays: &Vec<ArrayData>) -> (r: Result<ArrayData, ArrowError>)
    requires
        forall|i: int|
            0 <= i < arrays@.len() ==> is_plain(
                type_kind(array_view(#[trigger] arrays@[i]).data_type),
            ),
    ensures
        match r {
            Ok(a) => {
                let views = array_views(arrays@);
                &&& arrays@.len() > 0
                &&& same_types(views)
                &&& array_view(a).data_type == views[0].data_type
                &&& array_view(a).cells == concat_cells(views, arrays@.len() as int)
            },
            Err(_) => arrays@.len() == 0 || !same_types(array_views(arrays@)),
        },
{
    let owned: Vec<ArrayRef> = arrays.iter().map(|a| make_array(a.clone())).collect();
    let refs: Vec<&dyn Array> = owned.iter().map(|a| a.as_ref()).collect();
    arrow::compute::concat(&refs).map(|a| a.to_data())
}

/// Some consecutive rows of an array, by Arrow's `ArrayData::slice`.
#[verifier::external_body]
pub(crate) fn slice_array(a: &ArrayData, offset: usize, len: usize) -> (r: ArrayData)
    requires
        offset + len <= array_view(*a).cells.len(),
    ensures
        array_view(r).data_type == array_view(*a).data_type,
        array_view(r).cells == array_view(*a).cells.subrange(offset as int, offset + len),
{
    a.slice(offset, len)
}

/// What a row of a dictionary array holds once it is not a dictionary any more: an
/// entry that is null becomes a null.
pub open spec fn unpacked_cell(c: Option<CellView>) -> Option<CellView> {
    if c == Some(CellView::NullEntry) {
        None
    } else {
        c
    }
}

/// The rows of a dictionary array once it is not a dictionary any more.
pub open spec fn unpacked(cells: Seq<Option<CellView>>) -> Seq<Option<CellView>> {
    Seq::new(cells.len(), |i: int| unpacked_cell(cells[i]))
}

/// The cells of an array after its conversion to a plain type, cell by cell; `None`
/// where the types cannot be converted, or a cell cannot.
pub open spec fn cast_cells(a: ArrayView, t: DataType) -> Option<Seq<Option<CellView>>> {
    if cast_cell(a.data_type, None, t) is Some && forall|i: int|
        0 <= i < a.cells.len() ==> cast_cell(a.data_type, #[trigger] a.cells[i], t) is Some {
        Some(Seq::new(a.cells.len(), |i: int| cast_cell(a.data_type, a.cells[i], t)->0))
    } else {
        None
    }
}

/// What an array shows once it is not a dictionary any more.
pub open spec fn unpacked_view(a: ArrayView) -> ArrayView {
    ArrayView { data_type: entry_type(a.data_type)->0, cells: unpacked(a.cells), raw: a.raw }
}

/// The cells of an array in a plain type; `None` where the types cannot be converted, or
/// a cell cannot, or a value of the array holds other values. A dictionary of times is
/// unpacked before it becomes text.
pub open spec fn converted_cells(a: ArrayView, t: DataType) -> Option<Seq<Option<CellView>>> {
    if a.data_type == t {
        Some(a.cells)
    } else if !is_flat(shown_kind(a.data_type)) {
        None
    } else if is_sure(a.data_type, t) {
        cast_cells(a, t)
    } else {
        cast_cells(unpacked_view(a), t)
    }
}

/// An array converted to a plain type, or a dictionary to the type of its entries, by
/// Arrow's `cast`. What becomes of a cell in a plain type depends on the cell and the two
/// types alone, and the conversion fails by the types or by a cell. To convert a
/// dictionary to the type of its entries is to pick the entry of each row, which does not
/// fail where that type is plain or one of times.
#[verifier::external_body]
pub(crate) fn cast_array(a: &ArrayData, t: &DataType) -> (r: Result<ArrayData, ArrowError>)
    requires
        ({
            ||| {
                &&& is_plain(type_kind(*t))
                &&& is_sure(array_view(*a).data_type, *t)
                &&& has_room(array_view(*a).data_type, buffer_lengths(*a), *t)
            }
            ||| {
                &&& entry_type(array_view(*a).data_type) == Some(*t)
                &&& type_kind(*t) == DataKind::Temporal
            }
        }),
    ensures
        match r {
            Ok(b) => {
                &&& array_view(b).data_type == *t
                &&& array_view(b).cells.len() == array_view(*a).cells.len()
                &&& is_plain(type_kind(*t)) ==> {
                    &&& cast_cell(array_view(*a).data_type, None, *t) is Some
                    &&& forall|i: int|
                        0 <= i < array_view(*a).cells.len() ==> cast_cell(
                            array_view(*a).data_type,
                            #[trigger] array_view(*a).cells[i],
                            *t,
                        ) == Some(array_view(b).cells[i])
                }
            },
            Err(_) => is_plain(type_kind(*t)) ==> {
                ||| cast_cell(array_view(*a).data_type, None, *t) is None
                ||| exists|i: int|
                    0 <= i < array_view(*a).cells.len() && cast_cell(
                        array_view(*a).data_type,
                        #[trigger] array_view(*a).cells[i],
                        *t,
                    ) is None
            },
        },
        entry_type(array_view(*a).data_type) == Some(*t) ==> match r {
            Ok(b) => array_view(b).cells == unpacked(array_view(*a).cells),
            Err(_) => false,
        },
{
    cast(make_array(a.clone()).as_ref(), t).map(|c| c.to_data())
}

/// An array in a plain type, if it can be converted and its buffers are short enough.
pub(crate) fn convert_array(a: &ArrayData, t: &DataType) -> (r: Option<ArrayData>)
    requires
        is_plain(type_kind(*t)),
    ensures
        match r {
            Some(b) => {
                &&& array_view(*a).data_type == *t || has_room(
                    array_view(*a).data_type,
                    buffer_lengths(*a),
                    *t,
                )
                &&& array_view(b).data_type == *t
                &&& converted_cells(array_view(*a), *t) == Some(array_view(b).cells)
                &&& array_view(b).cells.len() == array_view(*a).cells.len()
            },
            None => {
                ||| array_view(*a).data_type != *t && !has_room(
                    array_view(*a).data_type,
                    buffer_lengths(*a),
                    *t,
                )
                ||| converted_cells(array_view(*a), *t) is None
            },
        },
{
    if has_type(a, t) {
        return Some(copy_array(a));
    }
    let shown: DataKind = kind_shown(a);
    match shown {
        DataKind::DictInt32 | DataKind::DictUInt8Utf8View | DataKind::Dictionary
        | DataKind::Other => {
            return None;
        },
        _ => {},
    }
    if !fits_in(a, t) {
        return None;
    }
    if shown == DataKind::Temporal && kind_of_type(t) == DataKind::Utf8View {
        if let Some(e) = dict_entry_type(a) {
            return match cast_array(a, &e) {
                Ok(b) => cast_all(&b, t),
                Err(_) => None,
            };
        }
    }
    cast_all(a, t)
}

/// An array converted to a plain type.
fn cast_all(a: &ArrayData, t: &DataType) -> (r: Option<ArrayData>)
    requires
        is_plain(type_kind(*t)),
        is_sure(array_view(*a).data_type, *t),
        has_room(array_view(*a).data_type, buffer_lengths(*a), *t),
    ensures
        match r {
            Some(b) => {
                &&& array_view(b).data_type == *t
                &&& cast_cells(array_view(*a), *t) == Some(array_view(b).cells)
                &&& array_view(b).cells.len() == array_view(*a).cells.len()
            },
            None => cast_cells(array_view(*a), *t) is None,
        },
{
    match cast_array(a, t) {
        Ok(b) => {
            assert(cast_cells(array_view(*a), *t)->0 =~= array_view(b).cells);
            Some(b)
        },
        Err(_) => None,
    }
}

/// The contents of a list of batches.
pub open spec fn batch_views(batches: Seq<Batch>) -> Seq<BatchView> {
    Seq::new(batches.len(), |i: int| batch_view(batches[i]))
}

/// The cells of a column over the first `n` batches, one batch after another.
pub open spec fn joined_cells(batches: Seq<BatchView>, col: int, n: int) -> Seq<Option<CellView>>
    decreases n,
{
    if n <= 0 {
        Seq::empty()
    } else {
        joined_cells(batches, col, n - 1) + batches[n - 1].columns[col].cells
    }
}

/// The number of rows of the first `n` batches.
pub open spec fn total_rows(batches: Seq<BatchView>, n: int) -> nat
    decreases n,
{
    if n <= 0 {
        0
    } else {
        total_rows(batches, n - 1) + batches[n - 1].rows
    }
}

/// Whether a batch has the columns that a schema says.
pub open spec fn conforms(b: BatchView, fields: Seq<FieldView>) -> bool {
    &&& b.columns.len() == fields.len()
    &&& forall|i: int|
        0 <= i < fields.len() ==> {
            &&& (#[trigger] b.columns[i]).data_type == fields[i].data_type
            &&& fields[i].nullable || no_nulls(b.columns[i].cells)
            &&& b.columns[i].cells.len() == b.rows
        }
}

/// Whether every field is of a plain kind.
pub open spec fn all_plain(fields: Seq<FieldView>) -> bool {
    forall|i: int| 0 <= i < fields.len() ==> is_plain(type_kind((#[trigger] fields[i]).data_type))
}

/// Batches joined one after another, by Arrow's `concat_batches`. Columns of
/// plain kinds can always be joined.
#[verifier::external_body]
pub(crate) fn join_batches(schema: &Schema, batches: &Vec<Batch>) -> (r: Result<
    Batch,
    ArrowError,
>)
    requires
        schema_view(*schema).len() > 0,
        batches@.len() > 0,
        all_plain(schema_view(*schema)),
        forall|i: int|
            0 <= i < batches@.len() ==> conforms(
                #[trigger] batch_views(batches@)[i],
                schema_view(*schema),
            ),
    ensures
        match r {
            Ok(b) => {
                &&& batch_view(b).fields == schema_view(*schema)
                &&& batch_view(b).rows == total_rows(batch_views(batches@), batches@.len() as int)
                &&& conforms(batch_view(b), schema_view(*schema))
                &&& forall|i: int|
                    0 <= i < schema_view(*schema).len() ==> (#[trigger] batch_view(
                        b,
                    ).columns[i]).cells == joined_cells(
                        batch_views(batches@),
                        i,
                        batches@.len() as int,
                    )
            },
            Err(_) => false,
        },
{
    concat_batches(&Arc::new(schema.clone()), batches.iter().map(|b| &b.inner)).map(
        |inner| Batch { inner },
    )
}

/// What two truth values are together, where null is unknown.
pub open spec fn both(a: Option<CellView>, b: Option<CellView>) -> Option<CellView> {
    if a == Some(CellView::Bool(false)) || b == Some(CellView::Bool(false)) {
        Some(CellView::Bool(false))
    } else if a == Some(CellView::Bool(true)) && b == Some(CellView::Bool(true)) {
        Some(CellView::Bool(true))
    } else {
        None
    }
}

/// Two columns of truth values joined by "and", by Arrow's `and_kleene`, which
/// fails where they are not equally long.
#[verifier::external_body]
pub(crate) fn and_masks(a: &ArrayData, b: &ArrayData) -> (r: Result<ArrayData, ArrowError>)
    requires
        type_kind(array_view(*a).data_type) == DataKind::Boolean,
        type_kind(array_view(*b).data_type) == DataKind::Boolean,
    ensures
        match r {
            Ok(m) => {
                &&& array_view(*a).cells.len() == array_view(*b).cells.len()
                &&& type_kind(array_view(m).data_type) == DataKind::Boolean
                &&& array_view(m).cells == Seq::new(
                    array_view(*a).cells.len(),
                    |i: int| both(array_view(*a).cells[i], array_view(*b).cells[i]),
                )
            },
            Err(_) => array_view(*a).cells.len() != array_view(*b).cells.len(),
        },
{
    let (left, right) = (make_array(a.clone()), make_array(b.clone()));
    and_kleene(left.as_boolean(), right.as_boolean()).map(|m| m.into_data())
}

/// The cells, among the first `n`, where a mask is true.
pub open spec fn kept_cells(
    cells: Seq<Option<CellView>>,
    mask: Seq<Option<CellView>>,
    n: int,
) -> Seq<Option<CellView>>
    decreases n,
{
    if n <= 0 {
        Seq::empty()
    } else if mask[n - 1] == Some(CellView::Bool(true)) {
        kept_cells(cells, mask, n - 1).push(cells[n - 1])
    } else {
        kept_cells(cells, mask, n - 1)
    }
}

/// How often a mask is true among its first `n` cells.
pub open spec fn kept_count(mask: Seq<Option<CellView>>, n: int) -> nat
    decreases n,
{
    if n <= 0 {
        0
    } else if mask[n - 1] == Some(CellView::Bool(true)) {
        kept_count(mask, n - 1) + 1
    } else {
        kept_count(mask, n - 1)
    }
}

/// The rows of a batch where a mask is true, by Arrow's `filter_record_batch`,
/// which fails where the mask is longer than the columns of the batch.
#[verifier::external_body]
pub(crate) fn filter_rows(b: &Batch, mask: &ArrayData) -> (r: Result<Batch, ArrowError>)
    requires
        type_kind(array_view(*mask).data_type) == DataKind::Boolean,
    ensures
        match r {
            Ok(f) => {
                let cells = array_view(*mask).cells;
                let n = cells.len() as int;
                &&& batch_view(f).fields == batch_view(*b).fields
                &&& batch_view(f).columns.len() == batch_view(*b).columns.len()
                &&& batch_view(f).rows == kept_count(cells, n)
                &&& forall|i: int|
                    0 <= i < batch_view(f).columns.len() ==> {
                        &&& (#[trigger] batch_view(f).columns[i]).data_type == batch_view(
                            *b,
                        ).columns[i].data_type
                        &&& batch_view(f).columns[i].cells == kept_cells(
                            batch_view(*b).columns[i].cells,
                            cells,
                            n,
                        )
                    }
            },
            Err(_) => batch_view(*b).columns.len() > 0 && array_view(*mask).cells.len()
                > batch_view(*b).rows,
        },
        r is Ok ==> batch_view(*b).columns.len() == 0 || array_view(*mask).cells.len()
            <= batch_view(*b).rows,
{
    let array = make_array(mask.clone());
    filter_record_batch(&b.inner, array.as_boolean()).map(|inner| Batch { inner })
}

/// Whether arrays are of one type.
pub open spec fn same_types(arrays: Seq<ArrayView>) -> bool {
    forall|i: int| 0 <= i < arrays.len() ==> (#[trigger] arrays[i]).data_type == arrays[0].data_type
}

/// Rows picked from several arrays of one plain type, each pick an array and a row of it,
/// by Arrow's `interleave`.
#[verifier::external_body]
pub(crate) fn pick_rows(arrays: &Vec<ArrayData>, picks: &Vec<(usize, usize)>) -> (r: Result<
    ArrayData,
    ArrowError,
>)
    requires
        arrays@.len() > 0,
        same_types(array_views(arrays@)),
        is_plain(type_kind(array_views(arrays@)[0].data_type)),
        forall|i: int|
            0 <= i < picks@.len() ==> (#[trigger] picks@[i]).0 < arrays@.len() && picks@[i].1
                < array_views(arrays@)[picks@[i].0 as int].cells.len(),
    ensures
        match r {
            Ok(a) => {
                let views = array_views(arrays@);
                &&& array_view(a).data_type == views[0].data_type
                &&& array_view(a).cells == Seq::new(
                    picks@.len(),
                    |i: int| views[picks@[i].0 as int].cells[picks@[i].1 as int],
                )
            },
            Err(_) => false,
        },
{
    let owned: Vec<ArrayRef> = arrays.iter().map(|a| make_array(a.clone())).collect();
    let refs: Vec<&dyn Array> = owned.iter().map(|a| a.as_ref()).collect();
    interleave(&refs, picks).map(|a| a.to_data())
}

/// The text of an error of Arrow.
#[verifier::external_body]
pub(crate) fn arrow_text(e: &ArrowError) -> (r: String) {
    e.to_string()
}

/// The values of a `Utf8View` array, by downcasting to Arrow's
/// `StringViewArray`; `None` for an array of another type.
#[verifier::external_body]
pub(crate) fn string_view_values(a: &ArrayData) -> (r: Option<Vec<Option<String>>>)
    ensures
        match r {
            Some(v) => type_kind(array_view(*a).data_type) == DataKind::Utf8View && text_cells(v@)
                == array_view(*a).cells,
            None => type_kind(array_view(*a).data_type) != DataKind::Utf8View,
        },
{
    let array: ArrayRef = make_array(a.clone());
    let strings: &StringViewArray = array.as_any().downcast_ref()?;
    Some(strings.iter().map(|v| v.map(str::to_owned)).collect())
}

/// The values of a `Utf8` array, by downcasting to Arrow's `StringArray`; `None`
/// for an array of another type.
#[verifier::external_body]
pub(crate) fn string_values(a: &ArrayData) -> (r: Option<Vec<Option<String>>>)
    ensures
        match r {
            Some(v) => type_kind(array_view(*a).data_type) == DataKind::Utf8 && text_cells(v@)
                == array_view(*a).cells,
            None => type_kind(array_view(*a).data_type) != DataKind::Utf8,
        },
{
    let array: ArrayRef = make_array(a.clone());
    let strings: &StringArray = array.as_any().downcast_ref()?;
    Some(strings.iter().map(|v| v.map(str::to_owned)).collect())
}

/// What a row of a dictionary array holds, given the entry that its key names.
pub open spec fn entry_cell(entry: Option<CellView>) -> Option<CellView> {
    match entry {
        Some(c) => Some(c),
        None => Some(CellView::NullEntry),
    }
}

/// The keys and the entries of a dictionary array with `Int32` keys, by
/// downcasting to Arrow's `DictionaryArray<Int32Type>`; `None` for an array of
/// another type. Every key of a row that is not null names an entry, and the entries
/// are of the type that the type of the array says.
#[verifier::external_body]
pub(crate) fn dict_int32(a: &ArrayData) -> (r: Option<(Vec<Option<i32>>, ArrayData)>)
    ensures
        match r {
            Some((keys, entries)) => {
                &&& type_kind(array_view(*a).data_type) == DataKind::DictInt32
                &&& entry_type(array_view(*a).data_type) == Some(array_view(entries).data_type)
                &&& keys@.len() == array_view(*a).cells.len()
                &&& forall|i: int|
                    0 <= i < keys@.len() ==> match #[trigger] keys@[i] {
                        Some(k) => 0 <= k < array_view(entries).cells.len() && array_view(
                            *a,
                        ).cells[i] == entry_cell(array_view(entries).cells[k as int]),
                        None => array_view(*a).cells[i] is None,
                    }
            },
            None => type_kind(array_view(*a).data_type) != DataKind::DictInt32,
        },
{
    let array: ArrayRef = make_array(a.clone());
    let dict: &DictionaryArray<Int32Type> = array.as_any().downcast_ref()?;
    Some((dict.keys().iter().collect(), dict.values().to_data()))
}

/// The text of an optional entry as a cell.
pub open spec fn text_entry(entry: Option<Seq<char>>) -> Option<CellView> {
    match entry {
        Some(s) => Some(CellView::Str(s)),
        None => None,
    }
}

/// Optional strings as entries.
pub open spec fn entry_views(values: Seq<Option<String>>) -> Seq<Option<Seq<char>>> {
    Seq::new(
        values.len(),
        |i: int|
            match values[i] {
                Some(s) => Some(s@),
                None => None,
            },
    )
}

/// Whether Arrow's builder of `Utf8View` arrays takes a text: it refuses one whose
/// bytes cannot be counted in four bytes.
pub open spec fn storable(s: Seq<char>) -> bool {
    vstd::utf8::encode_utf8(s).len() < u32::MAX
}

/// Whether Arrow's builder of `Utf8View` arrays takes every text.
pub open spec fn all_storable(texts: Seq<Seq<char>>) -> bool {
    forall|i: int| 0 <= i < texts.len() ==> storable(#[trigger] texts[i])
}

/// Whether Arrow's builder of `Utf8View` arrays takes the text of every cell.
pub open spec fn storable_cells(cells: Seq<Option<CellView>>) -> bool {
    forall|i: int|
        0 <= i < cells.len() ==> (#[trigger] cells[i] matches Some(CellView::Str(s)) ==> storable(
            s,
        ))
}

/// The keys and the entries of a dictionary array with `UInt8` keys and `Utf8View`
/// entries, by downcasting to Arrow's `DictionaryArray<UInt8Type>`; `None` for an
/// array of another type. Every key of a row that is not null names an entry.
#[verifier::external_body]
pub(crate) fn dict_uint8(a: &ArrayData) -> (r: Option<(Vec<Option<u8>>, Vec<Option<String>>)>)
    ensures
        match r {
            Some((keys, entries)) => {
                &&& type_kind(array_view(*a).data_type) == DataKind::DictUInt8Utf8View
                &&& entry_views(entries@) == dict_entries(*a)
                &&& keys@.len() == array_view(*a).cells.len()
                &&& forall|i: int|
                    0 <= i < keys@.len() ==> match #[trigger] keys@[i] {
                        Some(k) => k < entries@.len() && array_view(*a).cells[i] == entry_cell(
                            text_entry(dict_entries(*a)[k as int]),
                        ),
                        None => array_view(*a).cells[i] is None,
                    }
            },
            None => type_kind(array_view(*a).data_type) != DataKind::DictUInt8Utf8View,
        },
{
    let array: ArrayRef = make_array(a.clone());
    let dict: &DictionaryArray<UInt8Type> = array.as_any().downcast_ref()?;
    let entries: &StringViewArray = dict.values().as_any().downcast_ref()?;
    Some((dict.keys().iter().collect(), entries.iter().map(|v| v.map(str::to_owned)).collect()))
}

/// A dictionary array with the given keys and entries, by Arrow's
/// `DictionaryArray::<UInt8Type>::try_new`, which fails where a key names no entry,
/// on entries that `StringViewArray::from_iter_values` builds, which panics on an
/// entry that is too long.
#[verifier::external_body]
pub(crate) fn dict_uint8_array(keys: Vec<Option<u8>>, entries: Vec<String>) -> (r: Result<
    ArrayData,
    ArrowError,
>)
    requires
        all_storable(text_views(entries@)),
    ensures
        match r {
            Ok(a) => {
                &&& type_kind(array_view(a).data_type) == DataKind::DictUInt8Utf8View
                &&& dict_entries(a) == Seq::new(entries@.len(), |i: int| Some(entries@[i]@))
                &&& array_view(a).cells == Seq::new(
                    keys@.len(),
                    |i: int|
                        match keys@[i] {
                            Some(k) => Some(CellView::Str(entries@[k as int]@)),
                            None => None,
                        },
                )
            },
            Err(_) => exists|i: int|
                0 <= i < keys@.len() && (#[trigger] keys@[i] matches Some(k) && k >= entries@.len()),
        },
{
    let values = StringViewArray::from_iter_values(entries);
    DictionaryArray::<UInt8Type>::try_new(UInt8Array::from(keys), Arc::new(values)).map(
        |a| a.into_data(),
    )
}

/// The values of a nanosecond timestamp array, by downcasting to Arrow's
/// `TimestampNanosecondArray` and reading its `values` buffer; `None` for an
/// array of another type.
#[verifier::external_body]
pub(crate) fn timestamp_values(a: &ArrayData) -> (r: Option<Vec<i64>>)
    ensures
        match r {
            Some(v) => {
                &&& type_kind(array_view(*a).data_type) == DataKind::TimestampNs
                &&& v@ == array_view(*a).raw
                &&& v@.len() == array_view(*a).cells.len()
                &&& forall|i: int|
                    0 <= i < v@.len() && (#[trigger] array_view(*a).cells[i]) is Some
                        ==> array_view(*a).cells[i] == Some(CellView::Time(v@[i]))
            },
            None => type_kind(array_view(*a).data_type) != DataKind::TimestampNs,
        },
{
    let array: ArrayRef = make_array(a.clone());
    let stamps: &TimestampNanosecondArray = array.as_any().downcast_ref()?;
    Some(stamps.values().to_vec())
}

/// The values of an `Int64` array, by downcasting to Arrow's `Int64Array` and
/// reading its `values` buffer; `None` for an array of another type.
#[verifier::external_body]
pub(crate) fn int64_values(a: &ArrayData) -> (r: Option<Vec<i64>>)
    ensures
        match r {
            Some(v) => {
                &&& type_kind(array_view(*a).data_type) == DataKind::Int64
                &&& v@ == array_view(*a).raw
                &&& v@.len() == array_view(*a).cells.len()
                &&& forall|i: int|
                    0 <= i < v@.len() && (#[trigger] array_view(*a).cells[i]) is Some
                        ==> array_view(*a).cells[i] == Some(CellView::Int(v@[i]))
            },
            None => type_kind(array_view(*a).data_type) != DataKind::Int64,
        },
{
    let array: ArrayRef = make_array(a.clone());
    let ints: &Int64Array = array.as_any().downcast_ref()?;
    Some(ints.values().to_vec())
}

/// The physical type that stands for a logical one: `Utf8View`, `Int64`,
/// `Float64`, `Boolean`, or nanosecond timestamps in UTC.
#[verifier::external_body]
pub(crate) fn to_physical(t: BqlType) -> (r: DataType)
    ensures
        r == physical_type(t),
        type_kind(r) == kind_of_logical(t),
{
    match t {
        BqlType::String => DataType::Utf8View,
        BqlType::Int => DataType::Int64,
        BqlType::Float => DataType::Float64,
        BqlType::Bool => DataType::Boolean,
        BqlType::Timestamp => DataType::Timestamp(TimeUnit::Nanosecond, Some("UTC".into())),
    }
}

/// A schema of the given fields and metadata, by Arrow's `Field::new`,
/// `Field::with_metadata` and `Schema::new_with_metadata`. Of a name that occurs twice
/// it is not said what is noted under it.
#[verifier::external_body]
pub(crate) fn arrow_schema(schema: &SchemaSpec) -> (r: Schema)
    ensures
        schema_view(r) == schema@,
        schema.notes_once() ==> schema_metadata(r) == schema.notes(),
{
    let fields: Vec<Field> = schema.fields.iter().map(
        |f|
            Field::new(f.name.as_str(), f.data_type.clone(), f.nullable).with_metadata(
                f.metadata.iter().cloned().collect::<HashMap<String, String>>(),
            ),
    ).collect();
    Schema::new_with_metadata(
        fields,
        schema.metadata.iter().cloned().collect::<HashMap<String, String>>(),
    )
}

/// A record batch of the given columns, by Arrow's `RecordBatch::try_new`, which
/// fails exactly where the columns do not fit the fields. The batch has the metadata of
/// the schema.
#[verifier::external_body]
pub(crate) fn new_batch(schema: &Schema, columns: Vec<ArrayData>) -> (r: Result<
    Batch,
    ArrowError,
>)
    ensures
        match r {
            Ok(b) => {
                &&& buildable(schema_view(*schema), array_views(columns@))
                &&& batch_view(b) == (BatchView {
                    fields: schema_view(*schema),
                    columns: array_views(columns@),
                    rows: array_views(columns@)[0].cells.len(),
                })
                &&& batch_metadata(b) == schema_metadata(*schema)
            },
            Err(_) => !buildable(schema_view(*schema), array_views(columns@)),
        },
{
    let arrays: Vec<ArrayRef> = columns.into_iter().map(make_array).collect();
    RecordBatch::try_new(Arc::new(schema.clone()), arrays).map(|inner| Batch { inner })
}

/// A record batch without rows, by Arrow's `RecordBatch::new_empty`.
#[verifier::external_body]
pub(crate) fn empty_batch(schema: &Schema) -> (r: Batch)
    requires
        all_plain(schema_view(*schema)),
    ensures
        batch_view(r).fields == schema_view(*schema),
        batch_view(r).rows == 0,
        batch_view(r).columns.len() == schema_view(*schema).len(),
        forall|i: int|
            0 <= i < schema_view(*schema).len() ==> {
                &&& (#[trigger] batch_view(r).columns[i]).data_type
                    == schema_view(*schema)[i].data_type
                &&& batch_view(r).columns[i].cells.len() == 0
            },
{
    Batch { inner: RecordBatch::new_empty(Arc::new(schema.clone())) }
}

/// An `Int64` array of the given values, by Arrow's `Int64Array::from`.
#[verifier::external_body]
pub(crate) fn int64_array(values: Vec<Option<i64>>) -> (r: ArrayData)
    ensures
        array_view(r).data_type == physical_type(BqlType::Int),
        array_view(r).cells == int_cells(values@),
{
    Int64Array::from(values).into_data()
}

/// A `Utf8View` array of the given values, by Arrow's `StringViewArray::from_iter`.
#[verifier::external_body]
pub(crate) fn string_view_array(values: Vec<Option<String>>) -> (r: ArrayData)
    requires
        storable_cells(text_cells(values@)),
    ensures
        array_view(r).data_type == physical_type(BqlType::String),
        array_view(r).cells == text_cells(values@),
{
    StringViewArray::from_iter(values).into_data()
}

/// A `Boolean` array of the given values, by Arrow's `BooleanArray::from`.
#[verifier::external_body]
pub(crate) fn boolean_array(values: Vec<bool>) -> (r: ArrayData)
    ensures
        array_view(r).data_type == physical_type(BqlType::Bool),
        array_view(r).cells == Seq::new(values@.len(), |i: int| Some(CellView::Bool(values@[i]))),
{
    BooleanArray::from(values).into_data()
}

/// A nanosecond timestamp array in UTC of the given values, by Arrow's
/// `TimestampNanosecondArray::from` and `with_timezone`.
#[verifier::external_body]
pub(crate) fn timestamp_array(values: Vec<i64>) -> (r: ArrayData)
    ensures
        array_view(r).data_type == physical_type(BqlType::Timestamp),
        array_view(r).cells == Seq::new(values@.len(), |i: int| Some(CellView::Time(values@[i]))),
{
    TimestampNanosecondArray::from(values).with_timezone("UTC").into_data()
}

/// A `Float64` array of the numbers with the given bits, by Arrow's
/// `ArrayData::try_new` over a buffer of those bits.
#[verifier::external_body]
pub(crate) fn float64_array(bits: Vec<u64>) -> (r: ArrayData)
    ensures
        array_view(r).data_type == physical_type(BqlType::Float),
        array_view(r).cells == Seq::new(bits@.len(), |i: int| Some(CellView::Float(bits@[i]))),
{
    let n: usize = bits.len();
    let buffers = vec![Buffer::from_vec(bits)];
    ArrayData::try_new(DataType::Float64, n, None, 0, buffers, vec![]).expect("n values")
}

/// An array of nulls, by Arrow's `new_null_array`.
#[verifier::external_body]
pub(crate) fn null_array(t: &DataType, n: usize) -> (r: ArrayData)
    requires
        is_plain(type_kind(*t)),
    ensures
        array_view(r).data_type == *t,
        array_view(r).cells == Seq::new(n as nat, |i: int| None::<CellView>),
{
    new_null_array(t, n).to_data()
}

/// The fields that stand for logical columns.
pub open spec fn schema_fields(columns: Seq<ColumnView>) -> Seq<FieldView> {
    Seq::new(
        columns.len(),
        |i: int|
            FieldView {
                name: columns[i].name,
                data_type: physical_type(columns[i].bql_type),
                nullable: columns[i].nullable,
            },
    )
}

/// The physical schema that stands for a logical one.
pub fn to_schema_spec(schema: &OperatorSchema) -> (r: SchemaSpec)
    ensures
        r@ == schema_fields(schema@),
        forall|i: int|
            0 <= i < r.fields@.len() ==> type_kind((#[trigger] r.fields@[i]).data_type)
                == kind_of_logical(schema@[i].bql_type),
{
    let mut fields: Vec<FieldSpec> = Vec::new();
    let mut i: usize = 0;
    while i < schema.columns.len()
        invariant
            i <= schema.columns@.len(),
            fields@.len() == i,
            forall|j: int|
                0 <= j < i ==> {
                    &&& (#[trigger] fields@[j])@ == schema_fields(schema@)[j]
                    &&& type_kind(fields@[j].data_type) == kind_of_logical(schema@[j].bql_type)
                },
        decreases schema.columns@.len() - i,
    {
        fields.push(
            FieldSpec {
                name: schema.columns[i].name.clone(),
                data_type: to_physical(schema.columns[i].bql_type),
                nullable: schema.columns[i].nullable,
                metadata: Vec::new(),
            },
        );
        i = i + 1;
    }
    let r = SchemaSpec { fields, metadata: Vec::new() };
    assert(r@ =~= schema_fields(schema@));
    r
}

/// A physical schema has a field for each column, in order, with the name of the column, its
/// physical type, and null where the column may be.
pub proof fn theorem_fields(columns: Seq<ColumnView>)
    ensures
        schema_fields(columns).len() == columns.len(),
        forall|i: int|
            0 <= i < columns.len() ==> {
                let f = #[trigger] schema_fields(columns)[i];
                &&& f.name == columns[i].name
                &&& f.data_type == physical_type(columns[i].bql_type)
                &&& f.nullable == columns[i].nullable
            },
{
}

} // verus!
