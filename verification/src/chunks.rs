//! Putting the chunks of a column together.
//!
//! Chunks of a text column may come as dictionaries, each with entries of its own.
//! Where all of them do, the dictionaries are merged into one, as long as its
//! entries can still be numbered by one byte. Otherwise the dictionaries are
//! unpacked first.

use arrow::array::ArrayData;
use arrow::datatypes::DataType;
use arrow::error::ArrowError;
use vstd::prelude::*;
use vstd::string::*;

use crate::columnar::{ArrayView, CellView, DataKind, all_storable, array_view, array_views,
    arrow_text, cast_array, concat_cells, copy_array, data_kind, dict_entries, dict_entry_type,
    dict_uint8, dict_uint8_array, entry_type, entry_views, is_legible, is_plain, join_arrays,
    same_types, storable, type_kind, unpacked};
use crate::error::BqliteError;
use crate::text::{has_prefix, join2, text_eq, text_views};

verus! {

/// The number of entries that one byte can number.
pub const SHORT_DICTIONARY_ENTRIES: usize = 256;

/// The content of a chunk, with the entries of a dictionary of text that is
/// numbered by one byte.
pub struct ChunkView {
    pub view: ArrayView,
    pub entries: Seq<Option<Seq<char>>>,
}

/// Whether a type is the dictionary of text that is numbered by one byte.
pub open spec fn is_short(t: DataType) -> bool {
    type_kind(t) == DataKind::DictUInt8Utf8View
}

/// What a chunk holds.
pub open spec fn chunk_view(a: ArrayData) -> ChunkView {
    ChunkView {
        view: array_view(a),
        entries: if is_short(array_view(a).data_type) {
            dict_entries(a)
        } else {
            Seq::empty()
        },
    }
}

/// What chunks hold.
pub open spec fn chunk_views(chunks: Seq<ArrayData>) -> Seq<ChunkView> {
    Seq::new(chunks.len(), |i: int| chunk_view(chunks[i]))
}

/// Whether every chunk is a dictionary of text that is numbered by one byte.
pub open spec fn all_short(chunks: Seq<ChunkView>) -> bool {
    forall|i: int| 0 <= i < chunks.len() ==> is_short((#[trigger] chunks[i]).view.data_type)
}

/// The text of a dictionary entry. A null entry counts as the empty text.
pub open spec fn entry_chars(entry: Option<Seq<char>>) -> Seq<char> {
    match entry {
        Some(s) => s,
        None => Seq::empty(),
    }
}

/// A list of texts with one more, if it is not in it yet.
pub open spec fn with_text(list: Seq<Seq<char>>, text: Seq<char>) -> Seq<Seq<char>> {
    if list.contains(text) {
        list
    } else {
        list.push(text)
    }
}

/// A list of texts with the first `n` entries of a dictionary.
pub open spec fn with_entries(
    list: Seq<Seq<char>>,
    entries: Seq<Option<Seq<char>>>,
    n: int,
) -> Seq<Seq<char>>
    decreases n,
{
    if n <= 0 {
        list
    } else {
        with_text(with_entries(list, entries, n - 1), entry_chars(entries[n - 1]))
    }
}

/// The entries of the first `n` dictionaries in the order in which they first occur.
pub open spec fn union_entries(chunks: Seq<ChunkView>, n: int) -> Seq<Seq<char>>
    decreases n,
{
    if n <= 0 {
        Seq::empty()
    } else {
        with_entries(
            union_entries(chunks, n - 1),
            chunks[n - 1].entries,
            chunks[n - 1].entries.len() as int,
        )
    }
}

/// Texts as the entries of a dictionary without a null entry.
pub open spec fn entry_list(texts: Seq<Seq<char>>) -> Seq<Option<Seq<char>>> {
    Seq::new(texts.len(), |i: int| Some(texts[i]))
}

/// A cell of a merged dictionary: a null entry counts as the empty text.
pub open spec fn filled_cell(c: Option<CellView>) -> Option<CellView> {
    if c == Some(CellView::NullEntry) {
        Some(CellView::Str(Seq::empty()))
    } else {
        c
    }
}

/// The cells of the first `n` chunks in a merged dictionary.
pub open spec fn filled_cells(chunks: Seq<ChunkView>, n: int) -> Seq<Option<CellView>>
    decreases n,
{
    if n <= 0 {
        Seq::empty()
    } else {
        filled_cells(chunks, n - 1) + Seq::new(
            chunks[n - 1].view.cells.len(),
            |i: int| filled_cell(chunks[n - 1].view.cells[i]),
        )
    }
}

/// The type of a chunk once it is not a dictionary any more.
pub open spec fn plain_type(c: ChunkView) -> DataType {
    match entry_type(c.view.data_type) {
        Some(t) => t,
        None => c.view.data_type,
    }
}

/// Whether every chunk shows plain values.
pub open spec fn all_legible(chunks: Seq<ChunkView>) -> bool {
    forall|i: int| 0 <= i < chunks.len() ==> is_legible((#[trigger] chunks[i]).view)
}

/// The cells of a chunk once it is not a dictionary any more.
pub open spec fn plain_cells(c: ChunkView) -> Seq<Option<CellView>> {
    if entry_type(c.view.data_type) is Some {
        unpacked(c.view.cells)
    } else {
        c.view.cells
    }
}

/// The cells of the first `n` chunks, unpacked.
pub open spec fn unpacked_cells(chunks: Seq<ChunkView>, n: int) -> Seq<Option<CellView>>
    decreases n,
{
    if n <= 0 {
        Seq::empty()
    } else {
        unpacked_cells(chunks, n - 1) + plain_cells(chunks[n - 1])
    }
}

/// Whether chunks are of one type once they are unpacked.
pub open spec fn one_plain_type(chunks: Seq<ChunkView>) -> bool {
    forall|i: int|
        0 <= i < chunks.len() ==> plain_type(#[trigger] chunks[i]) == plain_type(chunks[0])
}

/// What becomes of the chunks of a column.
pub enum JoinOutcome {
    /// There is no chunk.
    NoChunk,
    /// The chunks are of different types.
    Mixed,
    /// One column, with its type and its cells.
    Joined(DataType, Seq<Option<CellView>>),
}

/// Whether the dictionaries of chunks can be merged into one: there is one, its
/// entries are few enough, and none of them is too long to be stored.
pub open spec fn can_unify(chunks: Seq<ChunkView>) -> bool {
    let entries = union_entries(chunks, chunks.len() as int);
    &&& chunks.len() > 0
    &&& all_short(chunks)
    &&& entries.len() <= SHORT_DICTIONARY_ENTRIES
    &&& all_storable(entries)
}

/// What becomes of the chunks of a column.
pub open spec fn join_outcome(chunks: Seq<ChunkView>) -> JoinOutcome {
    if chunks.len() == 0 {
        JoinOutcome::NoChunk
    } else if can_unify(chunks) {
        JoinOutcome::Joined(chunks[0].view.data_type, filled_cells(chunks, chunks.len() as int))
    } else if !one_plain_type(chunks) {
        JoinOutcome::Mixed
    } else {
        JoinOutcome::Joined(plain_type(chunks[0]), unpacked_cells(chunks, chunks.len() as int))
    }
}

/// The texts of the first entries are a start of the texts of more entries.
proof fn lemma_entries_grow(list: Seq<Seq<char>>, entries: Seq<Option<Seq<char>>>, m: int, n: int)
    requires
        0 <= m <= n,
    ensures
        with_entries(list, entries, m).len() <= with_entries(list, entries, n).len(),
        with_entries(list, entries, n).take(with_entries(list, entries, m).len() as int)
            == with_entries(list, entries, m),
    decreases n - m,
{
    if m < n {
        lemma_entries_grow(list, entries, m, n - 1);
        let a = with_entries(list, entries, m);
        let b = with_entries(list, entries, n - 1);
        let c = with_entries(list, entries, n);
        assert(c.take(a.len() as int) =~= b.take(a.len() as int));
    } else {
        assert(with_entries(list, entries, n).take(with_entries(list, entries, m).len() as int)
            =~= with_entries(list, entries, m));
    }
}

/// The entries of the first dictionaries are a start of the entries of more.
proof fn lemma_union_grows(chunks: Seq<ChunkView>, m: int, n: int)
    requires
        0 <= m <= n,
    ensures
        union_entries(chunks, m).len() <= union_entries(chunks, n).len(),
        union_entries(chunks, n).take(union_entries(chunks, m).len() as int) == union_entries(
            chunks,
            m,
        ),
    decreases n - m,
{
    if m < n {
        lemma_union_grows(chunks, m, n - 1);
        let a = union_entries(chunks, m);
        let b = union_entries(chunks, n - 1);
        let c = union_entries(chunks, n);
        lemma_entries_grow(b, chunks[n - 1].entries, 0, chunks[n - 1].entries.len() as int);
        assert(c.take(b.len() as int) == b);
        assert(c.take(a.len() as int) =~= c.take(b.len() as int).take(a.len() as int));
    } else {
        assert(union_entries(chunks, n).take(union_entries(chunks, m).len() as int)
            =~= union_entries(chunks, m));
    }
}

/// The position of a text in a list.
fn text_position(list: &Vec<String>, s: &str) -> (r: Option<usize>)
    ensures
        match r {
            Some(i) => i < list@.len() && list@[i as int]@ == s@,
            None => !text_views(list@).contains(s@),
        },
{
    let mut i: usize = 0;
    while i < list.len()
        invariant
            i <= list@.len(),
            forall|j: int| 0 <= j < i ==> (#[trigger] list@[j])@ != s@,
        decreases list@.len() - i,
    {
        if text_eq(list[i].as_str(), s) {
            return Some(i);
        }
        i = i + 1;
    }
    None
}

/// The text of an entry.
fn entry_text(entry: &Option<String>) -> (r: String)
    ensures
        r@ == entry_chars(
            match entry {
                Some(s) => Some(s@),
                None => None,
            },
        ),
{
    match entry {
        Some(s) => s.clone(),
        None => String::new(),
    }
}

/// The number, in the merged dictionary, of each entry of a dictionary. Entries that
/// are new are added. `None` where they are too many.
fn add_entries(unified: &mut Vec<String>, entries: &Vec<Option<String>>) -> (r: Option<Vec<u8>>)
    requires
        old(unified)@.len() <= SHORT_DICTIONARY_ENTRIES,
    ensures
        match r {
            Some(codes) => {
                &&& final(unified)@.len() <= SHORT_DICTIONARY_ENTRIES
                &&& text_views(final(unified)@) == with_entries(
                    text_views(old(unified)@),
                    entry_views(entries@),
                    entries@.len() as int,
                )
                &&& codes@.len() == entries@.len()
                &&& forall|i: int|
                    0 <= i < codes@.len() ==> (#[trigger] codes@[i]) < final(unified)@.len()
                        && final(unified)@[codes@[i] as int]@ == entry_chars(
                        entry_views(entries@)[i],
                    )
            },
            None => with_entries(
                text_views(old(unified)@),
                entry_views(entries@),
                entries@.len() as int,
            ).len() > SHORT_DICTIONARY_ENTRIES,
        },
{
    let ghost before = text_views(unified@);
    let ghost views = entry_views(entries@);
    let mut codes: Vec<u8> = Vec::new();
    let mut i: usize = 0;
    while i < entries.len()
        invariant
            i <= entries@.len(),
            views == entry_views(entries@),
            unified@.len() <= SHORT_DICTIONARY_ENTRIES,
            before == text_views(old(unified)@),
            text_views(unified@) == with_entries(before, views, i as int),
            codes@.len() == i,
            forall|j: int|
                0 <= j < i ==> (#[trigger] codes@[j]) < unified@.len()
                    && unified@[codes@[j] as int]@ == entry_chars(views[j]),
        decreases entries@.len() - i,
    {
        let text: String = entry_text(&entries[i]);
        assert(text@ == entry_chars(views[i as int]));
        match text_position(unified, text.as_str()) {
            Some(at) => {
                assert(text_views(unified@)[at as int] == text@);
                assert(text_views(unified@).contains(text@));
                codes.push(at as u8);
            },
            None => {
                if unified.len() >= SHORT_DICTIONARY_ENTRIES {
                    proof {
                        lemma_entries_grow(before, views, i + 1, entries@.len() as int);
                    }
                    return None;
                }
                let code: u8 = unified.len() as u8;
                let ghost list = unified@;
                unified.push(text);
                codes.push(code);
                proof {
                    assert(text_views(unified@) =~= text_views(list).push(unified@[code as int]@));
                    assert forall|j: int| 0 <= j < i implies (#[trigger] codes@[j]) < unified@.len()
                        && unified@[codes@[j] as int]@ == entry_chars(views[j]) by {
                        assert(unified@[codes@[j] as int] == list[codes@[j] as int]);
                    }
                }
            },
        }
        i = i + 1;
    }
    Some(codes)
}

/// The keys of a dictionary, renumbered and added to the keys of the ones before.
fn add_keys(keys: &mut Vec<Option<u8>>, local: &Vec<Option<u8>>, codes: &Vec<u8>)
    requires
        forall|i: int|
            0 <= i < local@.len() ==> (#[trigger] local@[i] matches Some(k) ==> k < codes@.len()),
    ensures
        final(keys)@ == old(keys)@ + Seq::new(
            local@.len(),
            |i: int|
                match local@[i] {
                    Some(k) => Some(codes@[k as int]),
                    None => None::<u8>,
                },
        ),
{
    let ghost before = keys@;
    let ghost all = Seq::new(
        local@.len(),
        |i: int|
            match local@[i] {
                Some(k) => Some(codes@[k as int]),
                None => None::<u8>,
            },
    );
    let mut i: usize = 0;
    while i < local.len()
        invariant
            i <= local@.len(),
            all == Seq::new(
                local@.len(),
                |i: int|
                    match local@[i] {
                        Some(k) => Some(codes@[k as int]),
                        None => None::<u8>,
                    },
            ),
            forall|i: int|
                0 <= i < local@.len() ==> (#[trigger] local@[i] matches Some(k) ==> k
                    < codes@.len()),
            keys@ == before + all.take(i as int),
        decreases local@.len() - i,
    {
        match local[i] {
            Some(k) => {
                keys.push(Some(codes[k as usize]));
            },
            None => {
                keys.push(None);
            },
        }
        assert(all.take(i + 1) =~= all.take(i as int).push(all[i as int]));
        assert(keys@ =~= before + all.take(i + 1));
        i = i + 1;
    }
    assert(all.take(local@.len() as int) =~= all);
}

/// What the key of a merged dictionary stands for.
pub open spec fn key_cell(key: Option<u8>, entries: Seq<Seq<char>>) -> Option<CellView> {
    match key {
        Some(k) => Some(CellView::Str(entries[k as int])),
        None => None,
    }
}

/// Whether every text can be stored.
fn is_all_storable(texts: &Vec<String>) -> (r: bool)
    ensures
        r == all_storable(text_views(texts@)),
{
    let mut i: usize = 0;
    while i < texts.len()
        invariant
            i <= texts@.len(),
            forall|j: int| 0 <= j < i ==> storable(#[trigger] text_views(texts@)[j]),
        decreases texts@.len() - i,
    {
        assert(text_views(texts@)[i as int] == texts@[i as int]@);
        if texts[i].as_str().as_bytes().len() >= u32::MAX as usize {
            return false;
        }
        i = i + 1;
    }
    true
}

/// The dictionaries of chunks merged into one, with every entry once and in the order
/// in which they first occur; `None` where there is no chunk, and where it would have
/// more entries than one byte can number, or one that is too long to be stored.
pub fn try_unify_dict_uint8_utf8view(chunks: &Vec<ArrayData>) -> (r: Option<ArrayData>)
    requires
        all_short(chunk_views(chunks@)),
    ensures
        match r {
            Some(a) => {
                let views = chunk_views(chunks@);
                &&& can_unify(views)
                &&& is_short(array_view(a).data_type)
                &&& array_view(a).cells == filled_cells(views, views.len() as int)
                &&& dict_entries(a) == entry_list(union_entries(views, views.len() as int))
            },
            None => !can_unify(chunk_views(chunks@)),
        },
{
    let ghost views = chunk_views(chunks@);
    if chunks.len() == 0 {
        return None;
    }
    let mut unified: Vec<String> = Vec::new();
    let mut keys: Vec<Option<u8>> = Vec::new();
    let mut c: usize = 0;
    assert(text_views(unified@) =~= Seq::empty());
    while c < chunks.len()
        invariant
            c <= chunks@.len(),
            views == chunk_views(chunks@),
            all_short(views),
            unified@.len() <= SHORT_DICTIONARY_ENTRIES,
            text_views(unified@) == union_entries(views, c as int),
            keys@.len() == filled_cells(views, c as int).len(),
            forall|i: int|
                0 <= i < keys@.len() ==> {
                    &&& (#[trigger] keys@[i]) matches Some(k) ==> k < unified@.len()
                    &&& filled_cells(views, c as int)[i] == key_cell(keys@[i], text_views(unified@))
                },
        decreases chunks@.len() - c,
    {
        assert(views[c as int] == chunk_view(chunks@[c as int]));
        match dict_uint8(&chunks[c]) {
            Some((local, entries)) => {
                let ghost list = unified@;
                let ghost before = keys@;
                match add_entries(&mut unified, &entries) {
                    Some(codes) => {
                        add_keys(&mut keys, &local, &codes);
                        proof {
                            lemma_union_grows(views, c as int, c + 1);
                            assert(text_views(unified@).take(list.len() as int) == text_views(list));
                            let cells = filled_cells(views, c + 1);
                            assert forall|i: int| 0 <= i < keys@.len() implies {
                                &&& (#[trigger] keys@[i]) matches Some(k) ==> k < unified@.len()
                                &&& cells[i] == key_cell(keys@[i], text_views(unified@))
                            } by {
                                if i < before.len() {
                                    assert(keys@[i] == before[i]);
                                    assert(cells[i] == filled_cells(views, c as int)[i]);
                                    if let Some(k) = before[i] {
                                        assert(text_views(unified@).take(list.len() as int)[k as int]
                                            == text_views(list)[k as int]);
                                    }
                                } else {
                                    let j = i - before.len();
                                    let _ = local@[j];
                                    assert(cells[i] == filled_cell(views[c as int].view.cells[j]));
                                    if let Some(k) = local@[j] {
                                        assert(keys@[i] == Some(codes@[k as int]));
                                        assert(entry_views(entries@)[k as int] == dict_entries(
                                            chunks@[c as int],
                                        )[k as int]);
                                    }
                                }
                            }
                        }
                    },
                    None => {
                        proof {
                            lemma_union_grows(views, c + 1, chunks@.len() as int);
                        }
                        return None;
                    },
                }
            },
            None => {
                return None;
            },
        }
        c = c + 1;
    }
    if !is_all_storable(&unified) {
        return None;
    }
    match dict_uint8_array(keys, unified) {
        Ok(a) => {
            assert(array_view(a).cells =~= filled_cells(views, views.len() as int));
            assert(dict_entries(a) =~= entry_list(union_entries(views, views.len() as int)));
            Some(a)
        },
        Err(_) => None,
    }
}

/// The error for a call of Arrow that failed.
fn failed(begin: &str, e: &ArrowError) -> (r: BqliteError)
    ensures
        r is Execution,
        has_prefix(r.text(), begin@),
{
    let text: String = join2(begin, arrow_text(e).as_str());
    assert(text@.take(begin@.len() as int) =~= begin@);
    BqliteError::Execution(text)
}

/// The array, unpacked if it is a dictionary.
fn normalize_dict_to_values(a: &ArrayData) -> (r: Result<ArrayData, BqliteError>)
    requires
        is_legible(array_view(*a)),
    ensures
        r matches Ok(b) && array_view(b).cells == plain_cells(chunk_view(*a)) && array_view(
            b,
        ).data_type == plain_type(chunk_view(*a)),
{
    match dict_entry_type(a) {
        Some(t) => {
            match cast_array(a, &t) {
                Ok(b) => Ok(b),
                Err(e) => Err(failed("materialize_stitched: cast Dict->values failed: ", &e)),
            }
        },
        None => Ok(copy_array(a)),
    }
}

/// Whether every chunk is a dictionary of text that is numbered by one byte.
fn is_all_short(chunks: &Vec<ArrayData>) -> (r: bool)
    ensures
        r == all_short(chunk_views(chunks@)),
        r && chunks@.len() > 0 ==> forall|t: DataType| #[trigger]
            is_short(t) ==> t == array_view(chunks@[0]).data_type,
{
    let ghost views = chunk_views(chunks@);
    let mut i: usize = 0;
    while i < chunks.len()
        invariant
            i <= chunks@.len(),
            views == chunk_views(chunks@),
            forall|j: int| 0 <= j < i ==> is_short((#[trigger] views[j]).view.data_type),
            i > 0 ==> forall|t: DataType| #[trigger]
                is_short(t) ==> t == array_view(chunks@[0]).data_type,
        decreases chunks@.len() - i,
    {
        assert(views[i as int] == chunk_view(chunks@[i as int]));
        if data_kind(&chunks[i]) != DataKind::DictUInt8Utf8View {
            return false;
        }
        assert(forall|t: DataType| #[trigger]
            is_short(t) ==> t == array_view(chunks@[i as int]).data_type);
        i = i + 1;
    }
    true
}

/// Every chunk, unpacked if it is a dictionary.
fn normalize_all(chunks: &Vec<ArrayData>) -> (r: Result<Vec<ArrayData>, BqliteError>)
    requires
        all_legible(chunk_views(chunks@)),
    ensures
        match r {
            Ok(plain) => {
                let views = chunk_views(chunks@);
                &&& plain@.len() == chunks@.len()
                &&& forall|i: int|
                    0 <= i < plain@.len() ==> {
                        &&& array_view(#[trigger] plain@[i]).cells == plain_cells(views[i])
                        &&& array_view(plain@[i]).data_type == plain_type(views[i])
                    }
            },
            Err(_) => false,
        },
{
    let ghost views = chunk_views(chunks@);
    let mut plain: Vec<ArrayData> = Vec::new();
    let mut i: usize = 0;
    while i < chunks.len()
        invariant
            i <= chunks@.len(),
            views == chunk_views(chunks@),
            all_legible(views),
            plain@.len() == i,
            forall|j: int|
                0 <= j < i ==> {
                    &&& array_view(#[trigger] plain@[j]).cells == plain_cells(views[j])
                    &&& array_view(plain@[j]).data_type == plain_type(views[j])
                },
        decreases chunks@.len() - i,
    {
        assert(views[i as int] == chunk_view(chunks@[i as int]));
        match normalize_dict_to_values(&chunks[i]) {
            Ok(b) => {
                plain.push(b);
            },
            Err(e) => {
                return Err(e);
            },
        }
        i = i + 1;
    }
    Ok(plain)
}

proof fn lemma_unpacked_cells(chunks: Seq<ChunkView>, plain: Seq<ArrayView>, n: int)
    requires
        chunks.len() == plain.len(),
        0 <= n <= plain.len(),
        forall|i: int|
            0 <= i < plain.len() ==> (#[trigger] plain[i]).cells == plain_cells(chunks[i]),
    ensures
        concat_cells(plain, n) == unpacked_cells(chunks, n),
    decreases n,
{
    if n > 0 {
        lemma_unpacked_cells(chunks, plain, n - 1);
        let _ = plain[n - 1];
    }
}

/// One column out of its chunks.
pub fn concat_column(chunks: &Vec<ArrayData>) -> (r: Result<ArrayData, BqliteError>)
    requires
        all_legible(chunk_views(chunks@)),
    ensures
        joined_as(r, join_outcome(chunk_views(chunks@))),
{
    let ghost views = chunk_views(chunks@);
    if chunks.len() == 0 {
        return Err(
            BqliteError::Execution(
                "materialize_stitched: column has no chunks to concatenate".to_owned(),
            ),
        );
    }
    if is_all_short(chunks) {
        if let Some(a) = try_unify_dict_uint8_utf8view(chunks) {
            assert(views[0] == chunk_view(chunks@[0]));
            return Ok(a);
        }
    }
    match normalize_all(chunks) {
        Ok(plain) => {
            proof {
                assert forall|i: int| 0 <= i < plain@.len() implies is_plain(
                    type_kind(array_view(#[trigger] plain@[i]).data_type),
                ) by {
                    assert(is_legible(views[i].view));
                }
            }
            let joined = join_arrays(&plain);
            proof {
                let parts = array_views(plain@);
                assert forall|i: int| 0 <= i < parts.len() implies {
                    &&& (#[trigger] parts[i]).cells == plain_cells(views[i])
                    &&& parts[i].data_type == plain_type(views[i])
                } by {
                    assert(parts[i] == array_view(plain@[i]));
                }
                lemma_unpacked_cells(views, parts, parts.len() as int);
                assert(same_types(parts) == one_plain_type(views)) by {
                    if same_types(parts) {
                        assert forall|i: int| 0 <= i < views.len() implies plain_type(
                            #[trigger] views[i],
                        ) == plain_type(views[0]) by {
                            let _ = parts[i];
                            let _ = parts[0];
                        }
                    }
                    if one_plain_type(views) {
                        assert forall|i: int| 0 <= i < parts.len() implies (
                        #[trigger] parts[i]).data_type == parts[0].data_type by {
                            let _ = views[i];
                        }
                    }
                }
                let _ = parts[0];
            }
            match joined {
                Ok(a) => Ok(a),
                Err(e) => Err(failed("materialize_stitched: arrow::compute::concat failed: ", &e)),
            }
        },
        Err(e) => Err(e),
    }
}

/// Whether a result is what an outcome says.
pub open spec fn joined_as(r: Result<ArrayData, BqliteError>, outcome: JoinOutcome) -> bool {
    match outcome {
        JoinOutcome::NoChunk => r matches Err(e) && e is Execution && e.text()
            == "materialize_stitched: column has no chunks to concatenate"@,
        JoinOutcome::Mixed => r matches Err(e) && e is Execution && has_prefix(
            e.text(),
            "materialize_stitched: arrow::compute::concat failed: "@,
        ),
        JoinOutcome::Joined(t, cells) => r matches Ok(a) && array_view(a).data_type == t
            && array_view(a).cells == cells,
    }
}

/// Whether no cell of a chunk is a null dictionary entry.
pub open spec fn no_null_entry(c: ChunkView) -> bool {
    forall|i: int|
        0 <= i < c.view.cells.len() ==> #[trigger] c.view.cells[i] != Some(CellView::NullEntry)
}

/// Merging dictionaries keeps every row: as long as no entry is null, the rows of
/// the merged dictionary are those of the chunks, unpacked one after another.
pub proof fn theorem_unify_keeps_rows(chunks: Seq<ChunkView>, n: int)
    requires
        all_short(chunks),
        forall|i: int| 0 <= i < chunks.len() ==> no_null_entry(#[trigger] chunks[i]),
        0 <= n <= chunks.len(),
    ensures
        filled_cells(chunks, n) == unpacked_cells(chunks, n),
    decreases n,
{
    if n > 0 {
        theorem_unify_keeps_rows(chunks, n - 1);
        let c = chunks[n - 1];
        assert(no_null_entry(c));
        assert(Seq::new(c.view.cells.len(), |i: int| filled_cell(c.view.cells[i])) =~= unpacked(
            c.view.cells,
        ));
    }
}

proof fn lemma_entries_distinct(list: Seq<Seq<char>>, entries: Seq<Option<Seq<char>>>, n: int)
    requires
        list.no_duplicates(),
    ensures
        with_entries(list, entries, n).no_duplicates(),
    decreases n,
{
    if n > 0 {
        lemma_entries_distinct(list, entries, n - 1);
    }
}

/// A merged dictionary has no entry twice.
pub proof fn theorem_unify_distinct(chunks: Seq<ChunkView>, n: int)
    ensures
        union_entries(chunks, n).no_duplicates(),
    decreases n,
{
    if n > 0 {
        theorem_unify_distinct(chunks, n - 1);
        lemma_entries_distinct(
            union_entries(chunks, n - 1),
            chunks[n - 1].entries,
            chunks[n - 1].entries.len() as int,
        );
    }
}

} // verus!
