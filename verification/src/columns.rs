//! Columns of an Arrow record batch as plain values.
//!
//! A column is a sequence of slots. A slot of a scalar column is a pair: whether
//! the slot is null, and the value stored in it. The value of a null slot is
//! whatever the array's buffer holds there.

use vstd::prelude::*;

use arrow_array::{
    Array, BooleanArray, Float64Array, LargeListArray, RecordBatch, StringArray, UInt32Array,
    UInt64Array,
};

verus! {

/// An `arrow_array::RecordBatch`: a collection of columns. Verus cannot take a
/// declaration of the type itself, which has an `Index` into `dyn Array`.
#[verifier::external_body]
#[derive(Debug)]
pub struct Batch {
    pub(crate) batch: RecordBatch,
}

/// The number of rows of a batch.
pub uninterp spec fn batch_rows(batch: Batch) -> nat;

/// The columns of a batch that hold strings, by the name under which
/// `RecordBatch::column_by_name` finds them.
pub uninterp spec fn text_columns(batch: Batch) -> Map<Seq<char>, Seq<(bool, Seq<char>)>>;

/// The columns that hold `u64` numbers.
pub uninterp spec fn u64_columns(batch: Batch) -> Map<Seq<char>, Seq<(bool, u64)>>;

/// The columns that hold `u32` numbers.
pub uninterp spec fn u32_columns(batch: Batch) -> Map<Seq<char>, Seq<(bool, u32)>>;

/// The columns that hold `f64` numbers, each number by its bits.
pub uninterp spec fn f64_columns(batch: Batch) -> Map<Seq<char>, Seq<(bool, u64)>>;

/// The columns that hold truth values.
pub uninterp spec fn bool_columns(batch: Batch) -> Map<Seq<char>, Seq<(bool, bool)>>;

/// The columns that hold large lists. A list of `u64` numbers is the numbers
/// in its buffer; a list of anything else is `None`.
pub uninterp spec fn u64_list_columns(batch: Batch) -> Map<Seq<char>, Seq<Option<Seq<u64>>>>;

/// The columns that hold large lists. A list of strings is its strings, `None`
/// in the place of a null; a list of anything else is `None`.
pub uninterp spec fn text_list_columns(batch: Batch) -> Map<
    Seq<char>,
    Seq<Option<Seq<Option<Seq<char>>>>>,
>;

/// A vector of slots of strings holds these slots.
pub open spec fn same_texts(column: Seq<(bool, String)>, slots: Seq<(bool, Seq<char>)>) -> bool {
    &&& column.len() == slots.len()
    &&& forall|i: int|
        0 <= i < column.len() ==> (#[trigger] column[i]).0 == slots[i].0 && column[i].1@
            == slots[i].1
}

/// A vector of optional lists holds these lists.
pub open spec fn same_lists(column: Seq<Option<Vec<u64>>>, lists: Seq<Option<Seq<u64>>>) -> bool {
    &&& column.len() == lists.len()
    &&& forall|i: int|
        0 <= i < column.len() ==> match #[trigger] column[i] {
            Some(list) => lists[i] == Some(list@),
            None => lists[i] is None,
        }
}

/// A list of optional strings holds these optional texts.
pub open spec fn same_optional_texts(list: Seq<Option<String>>, texts: Seq<Option<Seq<char>>>) -> bool {
    &&& list.len() == texts.len()
    &&& forall|i: int|
        0 <= i < list.len() ==> match #[trigger] list[i] {
            Some(text) => texts[i] == Some(text@),
            None => texts[i] is None,
        }
}

/// A vector of optional lists of strings holds these lists.
pub open spec fn same_text_lists(
    column: Seq<Option<Vec<Option<String>>>>,
    lists: Seq<Option<Seq<Option<Seq<char>>>>>,
) -> bool {
    &&& column.len() == lists.len()
    &&& forall|i: int|
        0 <= i < column.len() ==> match #[trigger] column[i] {
            Some(list) => lists[i] matches Some(texts) && same_optional_texts(list@, texts),
            None => lists[i] is None,
        }
}

impl Batch {
    /// Calls `RecordBatch::num_rows`, which returns the number of rows.
    #[verifier::external_body]
    pub(crate) fn num_rows(&self) -> (result: usize)
        ensures
            result == batch_rows(*self),
    {
        self.batch.num_rows()
    }
}

/// Calls `RecordBatch::column_by_name`, downcasts the array to `StringArray`
/// and copies its slots with `is_null` and `value`. `Some` exactly where the
/// batch has a string column of that name, with one slot for each row.
#[verifier::external_body]
pub(crate) fn find_texts(batch: &Batch, name: &str) -> (result: Option<Vec<(bool, String)>>)
    ensures
        match result {
            Some(column) => text_columns(*batch).dom().contains(name@) && same_texts(
                column@,
                text_columns(*batch)[name@],
            ) && column.len() == batch_rows(*batch),
            None => !text_columns(*batch).dom().contains(name@),
        },
{
    let array = batch.batch.column_by_name(name)?.as_any().downcast_ref::<StringArray>()?;
    Some((0..array.len()).map(|row| (array.is_null(row), array.value(row).to_string())).collect())
}

/// Calls `RecordBatch::column_by_name`, downcasts the array to `UInt64Array`
/// and copies its slots with `is_null` and `value`. `Some` exactly where the
/// batch has a `u64` column of that name, with one slot for each row.
#[verifier::external_body]
pub(crate) fn find_u64s(batch: &Batch, name: &str) -> (result: Option<Vec<(bool, u64)>>)
    ensures
        match result {
            Some(column) => u64_columns(*batch).dom().contains(name@) && column@
                == u64_columns(*batch)[name@] && column.len() == batch_rows(*batch),
            None => !u64_columns(*batch).dom().contains(name@),
        },
{
    let array = batch.batch.column_by_name(name)?.as_any().downcast_ref::<UInt64Array>()?;
    Some((0..array.len()).map(|row| (array.is_null(row), array.value(row))).collect())
}

/// Calls `RecordBatch::column_by_name`, downcasts the array to `UInt32Array`
/// and copies its slots with `is_null` and `value`. `Some` exactly where the
/// batch has a `u32` column of that name, with one slot for each row.
#[verifier::external_body]
pub(crate) fn find_u32s(batch: &Batch, name: &str) -> (result: Option<Vec<(bool, u32)>>)
    ensures
        match result {
            Some(column) => u32_columns(*batch).dom().contains(name@) && column@
                == u32_columns(*batch)[name@] && column.len() == batch_rows(*batch),
            None => !u32_columns(*batch).dom().contains(name@),
        },
{
    let array = batch.batch.column_by_name(name)?.as_any().downcast_ref::<UInt32Array>()?;
    Some((0..array.len()).map(|row| (array.is_null(row), array.value(row))).collect())
}

/// Calls `RecordBatch::column_by_name`, downcasts the array to `Float64Array`
/// and copies its slots with `is_null` and `value`, each number by its bits.
/// `Some` exactly where the batch has an `f64` column of that name, with one
/// slot for each row.
#[verifier::external_body]
pub(crate) fn find_f64s(batch: &Batch, name: &str) -> (result: Option<Vec<(bool, u64)>>)
    ensures
        match result {
            Some(column) => f64_columns(*batch).dom().contains(name@) && column@
                == f64_columns(*batch)[name@] && column.len() == batch_rows(*batch),
            None => !f64_columns(*batch).dom().contains(name@),
        },
{
    let array = batch.batch.column_by_name(name)?.as_any().downcast_ref::<Float64Array>()?;
    Some((0..array.len()).map(|row| (array.is_null(row), array.value(row).to_bits())).collect())
}

/// Calls `RecordBatch::column_by_name`, downcasts the array to `BooleanArray`
/// and copies its slots with `is_null` and `value`. `Some` exactly where the
/// batch has a column of truth values of that name, with one slot for each row.
#[verifier::external_body]
pub(crate) fn find_bools(batch: &Batch, name: &str) -> (result: Option<Vec<(bool, bool)>>)
    ensures
        match result {
            Some(column) => bool_columns(*batch).dom().contains(name@) && column@
                == bool_columns(*batch)[name@] && column.len() == batch_rows(*batch),
            None => !bool_columns(*batch).dom().contains(name@),
        },
{
    let array = batch.batch.column_by_name(name)?.as_any().downcast_ref::<BooleanArray>()?;
    Some((0..array.len()).map(|row| (array.is_null(row), array.value(row))).collect())
}

/// Calls `RecordBatch::column_by_name`, downcasts the array to
/// `LargeListArray`, and each of its lists, as `value` gives it, to
/// `UInt64Array`, of which `values` gives the numbers. `Some` exactly where the
/// batch has a large-list column of that name, with one list for each row.
#[verifier::external_body]
pub(crate) fn find_u64_lists(batch: &Batch, name: &str) -> (result: Option<
    Vec<Option<Vec<u64>>>,
>)
    ensures
        match result {
            Some(column) => u64_list_columns(*batch).dom().contains(name@) && same_lists(
                column@,
                u64_list_columns(*batch)[name@],
            ) && column.len() == batch_rows(*batch),
            None => !u64_list_columns(*batch).dom().contains(name@),
        },
{
    let array = batch.batch.column_by_name(name)?.as_any().downcast_ref::<LargeListArray>()?;
    Some(
        (0..array.len()).map(
            |row| Some(array.value(row).as_any().downcast_ref::<UInt64Array>()?.values().to_vec()),
        ).collect(),
    )
}

/// Calls `RecordBatch::column_by_name`, downcasts the array to
/// `LargeListArray`, and each of its lists, as `value` gives it, to
/// `StringArray`, whose strings are copied. `Some` exactly where the batch has
/// a large-list column of that name, with one list for each row.
#[verifier::external_body]
pub(crate) fn find_text_lists(batch: &Batch, name: &str) -> (result: Option<
    Vec<Option<Vec<Option<String>>>>,
>)
    ensures
        match result {
            Some(column) => text_list_columns(*batch).dom().contains(name@) && same_text_lists(
                column@,
                text_list_columns(*batch)[name@],
            ) && column.len() == batch_rows(*batch),
            None => !text_list_columns(*batch).dom().contains(name@),
        },
{
    let array = batch.batch.column_by_name(name)?.as_any().downcast_ref::<LargeListArray>()?;
    Some(
        (0..array.len()).map(
            |row|
                {
                    let list = array.value(row);
                    let list = list.as_any().downcast_ref::<StringArray>()?;
                    Some(list.iter().map(|text| text.map(str::to_string)).collect())
                },
        ).collect(),
    )
}

/// What Rust's `{:.17e}` makes of the `f64` with these bits.
pub uninterp spec fn scientific_text(bits: u64) -> Seq<char>;

/// Calls `RecordBatch::column_by_name`, downcasts the array to `Float64Array`
/// and formats the `value` of each slot with `{:.17e}`. `Some` exactly where the
/// batch has an `f64` column of that name, with one text for each row. The
/// texts themselves are only named.
#[verifier::external_body]
pub(crate) fn find_f64_texts(batch: &Batch, name: &str) -> (result: Option<Vec<String>>)
    ensures
        match result {
            Some(column) => f64_columns(*batch).dom().contains(name@) && column.len() == batch_rows(
                *batch,
            ) && f64_columns(*batch)[name@].len() == batch_rows(*batch) && (forall|i: int|
                0 <= i < column@.len() ==> (#[trigger] column@[i])@ == scientific_text(
                    f64_columns(*batch)[name@][i].1,
                )),
            None => !f64_columns(*batch).dom().contains(name@),
        },
{
    let array = batch.batch.column_by_name(name)?.as_any().downcast_ref::<Float64Array>()?;
    Some((0..array.len()).map(|row| format!("{:.17e}", array.value(row))).collect())
}

} // verus!
