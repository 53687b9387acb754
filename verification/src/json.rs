//! JSON documents as the `serde_json` crate reads them.

use vstd::prelude::*;

verus! {

/// Whether `serde_json::from_slice` reads bytes as a JSON array.
pub uninterp spec fn is_json_array(bytes: Seq<u8>) -> bool;

/// `serde_json::from_slice` into a `serde_json::Value`, and whether that is an array; bytes that
/// it refuses are none. Which bytes are one is left to [`is_json_array`].
#[verifier::external_body]
pub(crate) fn is_array(bytes: &Vec<u8>) -> (array: bool)
    ensures
        array == is_json_array(bytes@),
{
    serde_json::from_slice::<serde_json::Value>(bytes).is_ok_and(|value| value.is_array())
}

/// A value of a JSON array, with the fields that are looked for in it.
#[derive(Debug, Eq, PartialEq)]
pub struct Document {
    /// The whole value as `serde_json` writes it, an object's names in order.
    pub json: String,
    /// Its `id`, where it is an object that has an unsigned integer for one.
    pub id: Option<u64>,
    /// Its `date_gmt`, where it is an object that has a text for one.
    pub date_gmt: Option<String>,
}

/// The parts of a [`Document`].
#[verifier::ext_equal]
pub struct DocumentView {
    pub json: Seq<char>,
    pub id: Option<u64>,
    pub date_gmt: Option<Seq<char>>,
}

impl DeepView for Document {
    type V = DocumentView;

    open spec fn deep_view(&self) -> DocumentView {
        DocumentView { json: self.json@, id: self.id, date_gmt: self.date_gmt.deep_view() }
    }
}

/// The values that `serde_json::from_slice` reads from bytes into a list of `serde_json::Value`,
/// or the `Display` of the error that it reports.
pub uninterp spec fn json_documents(bytes: Seq<u8>) -> Result<Seq<DocumentView>, Seq<char>>;

/// `serde_json::from_slice` into a list of `serde_json::Value`, each with its `Display` and what
/// `Value::get`, `Value::as_u64`, and `Value::as_str` find in it, or the error's `Display`. What
/// bytes read as, and the words of the error, are left to [`json_documents`].
#[verifier::external_body]
pub(crate) fn documents(bytes: &Vec<u8>) -> (documents: Result<Vec<Document>, String>)
    ensures
        match documents {
            Ok(documents) => json_documents(bytes@) == Ok::<Seq<DocumentView>, Seq<char>>(
                documents.deep_view(),
            ),
            Err(error) => json_documents(bytes@) == Err::<Seq<DocumentView>, Seq<char>>(error@),
        },
{
    let values = serde_json::from_slice::<Vec<serde_json::Value>>(bytes)
        .map_err(|error| error.to_string())?;
    Ok(values.iter().map(|value| Document {
        json: value.to_string(),
        id: value.get("id").and_then(serde_json::Value::as_u64),
        date_gmt: value.get("date_gmt").and_then(serde_json::Value::as_str).map(str::to_owned),
    }).collect())
}

/// Whether the values at two places of the lists that `serde_json::from_slice` reads from bytes are
/// equal `serde_json::Value`s.
pub uninterp spec fn are_equal_values(
    left: Seq<u8>,
    left_place: int,
    right: Seq<u8>,
    right_place: int,
) -> bool;

/// Whether bytes read as a list that has a value at a place.
pub open spec fn has_value(bytes: Seq<u8>, place: int) -> bool {
    json_documents(bytes) matches Ok(documents) && 0 <= place < documents.len()
}

/// The `PartialEq` of `serde_json::Value`, on the values at two places of the lists that
/// `serde_json::from_slice` reads. Which values are equal is left to [`are_equal_values`].
#[verifier::external_body]
pub(crate) fn equal_values(
    left: &Vec<u8>,
    left_place: usize,
    right: &Vec<u8>,
    right_place: usize,
) -> (equal: bool)
    requires
        has_value(left@, left_place as int),
        has_value(right@, right_place as int),
    ensures
        equal == are_equal_values(left@, left_place as int, right@, right_place as int),
{
    let left = serde_json::from_slice::<Vec<serde_json::Value>>(left).expect("a list");
    let right = serde_json::from_slice::<Vec<serde_json::Value>>(right).expect("a list");
    left[left_place] == right[right_place]
}

} // verus!
