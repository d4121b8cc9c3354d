//! Reading values out of JSON texts.
//!
//! A place in a text is a JSON pointer: the keys and indices from the outside in, each with a
//! slash in front.
use vstd::prelude::*;
use vstd::utf8::{encode_utf8, valid_utf8};

verus! {

/// The text at a place; nothing where the text is not JSON or holds no text there.
pub uninterp spec fn text_in(json: Seq<char>, at: Seq<char>) -> Option<Seq<char>>;

/// The items of the array at a place, each as a text where it is one; nothing where there is no
/// array.
pub uninterp spec fn items_in(json: Seq<char>, at: Seq<char>) -> Option<Seq<Option<Seq<char>>>>;

/// The whole number at a place; nothing where there is none that 64 bits hold.
pub uninterp spec fn whole_in(json: Seq<char>, at: Seq<char>) -> Option<u64>;

/// The number at a place as a double; nothing where there is no number.
pub uninterp spec fn double_in(json: Seq<char>, at: Seq<char>) -> Option<u64>;

/// The truth value at a place; nothing where there is none.
pub uninterp spec fn flag_in(json: Seq<char>, at: Seq<char>) -> Option<bool>;

/// `serde_json::from_str`, `Value::pointer` and `Value::as_str`: the text at a place.
#[verifier::external_body]
pub(crate) fn text_at(json: &str, at: &str) -> (r: Option<String>)
    ensures
        crate::receipt::text_view(r) == text_in(json@, at@),
{
    let value = serde_json::from_str::<serde_json::Value>(json).ok()?;
    value.pointer(at)?.as_str().map(|s| s.to_owned())
}

/// The values of optional texts.
pub open spec fn optional_views(items: Seq<Option<String>>) -> Seq<Option<Seq<char>>> {
    items.map_values(|t: Option<String>| crate::receipt::text_view(t))
}

/// `serde_json::from_str`, `Value::pointer`, `Value::as_array` and `Value::as_str`: the items of
/// the array at a place, each as a text where it is one.
#[verifier::external_body]
pub(crate) fn items_at(json: &str, at: &str) -> (r: Option<Vec<Option<String>>>)
    ensures
        match r {
            Some(items) => items_in(json@, at@) == Some(optional_views(items@)),
            None => items_in(json@, at@) is None,
        },
{
    let value = serde_json::from_str::<serde_json::Value>(json).ok()?;
    let items = value.pointer(at)?.as_array()?;
    Some(items.iter().map(|item| item.as_str().map(|s| s.to_owned())).collect())
}

/// `serde_json::from_str`, `Value::pointer` and `Value::as_u64`: the whole number at a place.
#[verifier::external_body]
pub(crate) fn whole_at(json: &str, at: &str) -> (r: Option<u64>)
    ensures
        r == whole_in(json@, at@),
{
    serde_json::from_str::<serde_json::Value>(json).ok()?.pointer(at)?.as_u64()
}

/// `serde_json::from_str`, `Value::pointer` and `Value::as_f64`: the number at a place as a double,
/// which is finite because JSON has no other numbers.
#[verifier::external_body]
pub(crate) fn double_at(json: &str, at: &str) -> (r: Option<u64>)
    ensures
        r == double_in(json@, at@),
        r is Some ==> crate::float64::magnitude(r->Some_0) < crate::float64::INFINITY,
{
    let value = serde_json::from_str::<serde_json::Value>(json).ok()?;
    value.pointer(at)?.as_f64().map(|x| x.to_bits())
}

/// `serde_json::from_str`, `Value::pointer` and `Value::as_bool`: the truth value at a place.
#[verifier::external_body]
pub(crate) fn flag_at(json: &str, at: &str) -> (r: Option<bool>)
    ensures
        r == flag_in(json@, at@),
{
    serde_json::from_str::<serde_json::Value>(json).ok()?.pointer(at)?.as_bool()
}

/// `std::str::from_utf8`: the text that bytes are in UTF-8, nothing where they are not UTF-8.
#[verifier::external_body]
pub(crate) fn utf8_text(bytes: &[u8]) -> (r: Option<String>)
    ensures
        match r {
            Some(s) => encode_utf8(s@) == bytes@,
            None => !valid_utf8(bytes@),
        },
{
    std::str::from_utf8(bytes).ok().map(|s| s.to_owned())
}

/// The text that bytes stand for where what is not UTF-8 is replaced.
pub uninterp spec fn lossy(bytes: Seq<u8>) -> Seq<char>;

/// `String::from_utf8_lossy`: the text of bytes, with U+FFFD for what is not UTF-8. UTF-8 is read
/// as it is.
#[verifier::external_body]
pub(crate) fn lossy_text(bytes: &[u8]) -> (r: String)
    ensures
        r@ == lossy(bytes@),
        valid_utf8(bytes@) ==> encode_utf8(r@) == bytes@,
{
    String::from_utf8_lossy(bytes).into_owned()
}

/// The place of an item of an array, or of what lies under it.
pub open spec fn item_place(array: Seq<char>, index: nat, under: Seq<char>) -> Seq<char> {
    array + "/"@ + crate::text::decimal(index) + under
}

/// The place of an item of an array, or of what lies under it.
pub(crate) fn place_of_item(array: &str, index: usize, under: &str) -> (r: String)
    ensures
        r@ == item_place(array@, index as nat, under@),
{
    let mut r = crate::text::join(array, "/");
    r.append(&crate::text::decimal_text(index as u64));
    r.append(under);
    r
}

} // verus!
