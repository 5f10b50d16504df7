//! The scalar fields that belong to a vector.
//!
//! A payload is a JSON object of `serde_json`. The filters read of it only numbers,
//! strings and booleans at the top level, so a payload stands here for a map from field
//! names to such values.

use vstd::arithmetic::power::*;
use vstd::arithmetic::power2::*;
use vstd::prelude::*;

verus! {

/// A JSON object of `serde_json`.
#[verifier::external_type_specification]
#[verifier::external_body]
#[verifier::reject_recursive_types(K)]
#[verifier::reject_recursive_types(V)]
pub struct ExJsonMap<K, V>(serde_json::Map<K, V>);

/// A JSON value of `serde_json`.
#[verifier::external_type_specification]
#[verifier::external_body]
pub struct ExJsonValue(serde_json::Value);

/// What `serde_json` reports when it cannot write or read JSON.
#[verifier::external_type_specification]
#[verifier::external_body]
pub struct ExJsonError(serde_json::Error);

/// The scalar fields of one vector, by name.
pub type Payload = serde_json::Map<String, serde_json::Value>;

/// The value of a field as filters see it.
#[derive(Debug)]
pub enum FieldValue {
    /// A number, by the bits of its double precision value, and whether it is held as an integer.
    Number(u64, bool),
    Text(String),
    Boolean(bool),
    /// No filter reads it.
    Null,
    /// An array or an object: no filter reads it.
    Other,
}

/// The model of a `FieldValue`.
pub enum Field {
    Number(u64, bool),
    Text(Seq<char>),
    Boolean(bool),
    Null,
    Other,
}

impl View for FieldValue {
    type V = Field;

    open spec fn view(&self) -> Field {
        match self {
            FieldValue::Number(bits, whole) => Field::Number(*bits, *whole),
            FieldValue::Text(text) => Field::Text(text@),
            FieldValue::Boolean(b) => Field::Boolean(*b),
            FieldValue::Null => Field::Null,
            FieldValue::Other => Field::Other,
        }
    }
}

/// What a payload holds: its fields by name.
pub uninterp spec fn payload_fields(payload: serde_json::Map<String, serde_json::Value>) -> Map<
    Seq<char>,
    Field,
>;

/// A field of a map, if it has one of that name.
pub open spec fn lookup(fields: Map<Seq<char>, Field>, name: Seq<char>) -> Option<Field> {
    if fields.contains_key(name) {
        Some(fields[name])
    } else {
        None
    }
}

/// The view of an optional field value.
pub open spec fn field_view(value: Option<FieldValue>) -> Option<Field> {
    match value {
        Some(v) => Some(v@),
        None => None,
    }
}

/// Calls `serde_json::Map::new`, which makes an object without fields.
#[verifier::external_body]
pub(crate) fn empty_payload() -> (payload: Payload)
    ensures
        payload_fields(payload).is_empty(),
{
    Payload::new()
}

/// Calls `serde_json::Map::get`, which hands out the value under a name or nothing where the
/// object has no such field. A number is given by `serde_json::Number::as_f64`, and is held as an
/// integer where `serde_json::Number::is_f64` denies that it is a floating point number.
#[verifier::external_body]
pub(crate) fn payload_get(payload: &Payload, name: &str) -> (value: Option<FieldValue>)
    ensures
        field_view(value) == lookup(payload_fields(*payload), name@),
{
    match payload.get(name) {
        None => None,
        Some(serde_json::Value::Number(n)) => Some(
            n.as_f64().map_or(
                FieldValue::Other,
                |v| FieldValue::Number(v.to_bits(), !n.is_f64()),
            ),
        ),
        Some(serde_json::Value::String(s)) => Some(FieldValue::Text(s.clone())),
        Some(serde_json::Value::Bool(b)) => Some(FieldValue::Boolean(*b)),
        Some(serde_json::Value::Null) => Some(FieldValue::Null),
        Some(_) => Some(FieldValue::Other),
    }
}

/// The fields that a list of entries stands for: the last entry of a name counts.
pub open spec fn entry_fields(entries: Seq<(String, FieldValue)>) -> Map<Seq<char>, Field>
    decreases entries.len(),
{
    if entries.len() == 0 {
        Map::empty()
    } else {
        entry_fields(entries.drop_last()).insert(entries.last().0@, entries.last().1@)
    }
}

/// No two entries have the same name.
pub open spec fn distinct_names(entries: Seq<(String, FieldValue)>) -> bool {
    forall|i: int, j: int|
        0 <= i < j < entries.len() ==> (#[trigger] entries[i]).0@ != (#[trigger] entries[j]).0@
}

/// Calls `serde_json::Map::iter`, which walks over all fields, each name once. A number is given
/// as by `payload_get`.
#[verifier::external_body]
pub(crate) fn payload_entries(payload: &Payload) -> (entries: Vec<(String, FieldValue)>)
    ensures
        distinct_names(entries@),
        entry_fields(entries@) == payload_fields(*payload),
{
    payload.iter().map(|(name, value)| (name.clone(), match value {
        serde_json::Value::Number(n) => n.as_f64().map_or(
            FieldValue::Other,
            |v| FieldValue::Number(v.to_bits(), !n.is_f64()),
        ),
        serde_json::Value::String(s) => FieldValue::Text(s.clone()),
        serde_json::Value::Bool(b) => FieldValue::Boolean(*b),
        serde_json::Value::Null => FieldValue::Null,
        _ => FieldValue::Other,
    })).collect()
}

/// The fields of a list of entries with distinct names, entry by entry.
pub proof fn entry_fields_by_index(entries: Seq<(String, FieldValue)>)
    requires
        distinct_names(entries),
    ensures
        forall|i: int|
            0 <= i < entries.len() ==> lookup(entry_fields(entries), (#[trigger] entries[i]).0@)
                == Some(entries[i].1@),
        forall|name: Seq<char>| #[trigger]
            entry_fields(entries).contains_key(name) ==> exists|i: int|
                0 <= i < entries.len() && (#[trigger] entries[i]).0@ == name,
    decreases entries.len(),
{
    if entries.len() > 0 {
        let front = entries.drop_last();
        entry_fields_by_index(front);
        assert forall|i: int| 0 <= i < entries.len() implies lookup(
            entry_fields(entries),
            (#[trigger] entries[i]).0@,
        ) == Some(entries[i].1@) by {
            if i < front.len() {
                assert(front[i] == entries[i]);
                assert(entries[i].0@ != entries[entries.len() - 1].0@);
            }
        }
        assert forall|name: Seq<char>| #[trigger]
            entry_fields(entries).contains_key(name) implies exists|i: int|
            0 <= i < entries.len() && (#[trigger] entries[i]).0@ == name by {
            if name == entries.last().0@ {
                assert(entries[entries.len() - 1].0@ == name);
            } else {
                assert(entry_fields(front).contains_key(name));
                let i = choose|i: int| 0 <= i < front.len() && (#[trigger] front[i]).0@ == name;
                assert(entries[i].0@ == name);
            }
        }
    }
}

/// The JSON text of a list of payloads, as an array of objects.
pub uninterp spec fn payloads_json(payloads: Seq<serde_json::Map<String, serde_json::Value>>) -> Seq<u8>;

/// Calls `serde_json::to_vec`, which writes a value as JSON text. It fails only where a map has
/// keys that are no strings or the value refuses to be written, and a payload does neither. The
/// text of a list holds at least its two brackets.
#[verifier::external_body]
pub(crate) fn payloads_to_json(payloads: &Vec<Payload>) -> (json: Result<Vec<u8>, serde_json::Error>)
    ensures
        json is Ok,
        json->Ok_0@ == payloads_json(payloads@),
        json->Ok_0@.len() >= 2,
{
    serde_json::to_vec(payloads)
}

/// The payloads that JSON text stands for; none where it is not an array of objects.
pub uninterp spec fn payloads_of_json(json: Seq<u8>) -> Option<
    Seq<serde_json::Map<String, serde_json::Value>>,
>;

/// The exponent field of a double precision number, by its bits.
pub open spec fn exponent_field(bits: u64) -> int {
    (bits % 0x8000_0000_0000_0000) as int / 0x10_0000_0000_0000
}

/// The double precision number of an exponent field and a fraction is the one nearest to
/// `digits / 10^places`.
///
/// It is `2^52 + fraction` in units of `2^(exponent - 1075)`, and lies nearest to all that is less
/// than half a unit away; just above a power of two the unit below is half as large.
pub open spec fn nearest_to_decimal(exponent: int, fraction: int, digits: nat, places: nat) -> bool {
    let scale = pow2((1075 - exponent) as nat) as int;
    let ten = pow(10, places);
    let number = 0x10_0000_0000_0000 + fraction;
    let below: int = if fraction == 0 {
        4
    } else {
        2
    };
    &&& 0 < exponent <= 1075
    &&& 2 * (digits * scale - number * ten) < ten
    &&& below * (number * ten - digits * scale) < ten
}

/// A double precision number, by its bits, has a short decimal form: it is zero, or nearest to a
/// number of at most 22 decimal places that has less than 9 * 10^14 units in the last of them.
pub open spec fn short_decimal(bits: u64) -> bool {
    let magnitude = (bits % 0x8000_0000_0000_0000) as int;
    magnitude == 0 || exists|digits: nat, places: nat|
        digits < 900_000_000_000_000 && places <= 22 && #[trigger] nearest_to_decimal(
            exponent_field(bits),
            magnitude % 0x10_0000_0000_0000,
            digits,
            places,
        )
}

/// A scalar that JSON text can hold: anything but an array, an object, or a number that is not
/// held as an integer and is 2^1023 or more in magnitude.
pub open spec fn scalar(value: Field) -> bool {
    match value {
        Field::Number(bits, whole) => whole || exponent_field(bits) < 2046,
        Field::Other => false,
        _ => true,
    }
}

/// A value that JSON text gives back as it was: a text, a boolean, null, a number that is held as
/// an integer, or one with a short decimal form.
pub open spec fn kept_by_json(value: Field) -> bool {
    match value {
        Field::Number(bits, whole) => whole || short_decimal(bits),
        Field::Other => false,
        _ => true,
    }
}

/// What a value is after it was written as JSON text and read again: the same where it is kept, and
/// else a number that is held in the same way.
pub open spec fn comes_back(before: Field, after: Field) -> bool {
    if kept_by_json(before) {
        after == before
    } else {
        after matches Field::Number(_, whole) && !whole
    }
}

/// All fields of payloads are scalars.
pub open spec fn scalars(payloads: Seq<serde_json::Map<String, serde_json::Value>>) -> bool {
    forall|i: int, name: Seq<char>|
        0 <= i < payloads.len() && #[trigger] payload_fields(payloads[i]).contains_key(name)
            ==> scalar(payload_fields(payloads[i])[name])
}

/// All fields of payloads are given back by JSON text.
pub open spec fn plain(payloads: Seq<serde_json::Map<String, serde_json::Value>>) -> bool {
    forall|i: int, name: Seq<char>|
        0 <= i < payloads.len() && #[trigger] payload_fields(payloads[i]).contains_key(name)
            ==> kept_by_json(payload_fields(payloads[i])[name])
}

/// A payload has the fields of another, each as it comes back from JSON text.
pub open spec fn fields_come_back(
    before: Map<Seq<char>, Field>,
    after: Map<Seq<char>, Field>,
) -> bool {
    &&& after.dom() == before.dom()
    &&& forall|name: Seq<char>| #[trigger]
        after.contains_key(name) ==> comes_back(before[name], after[name])
}

/// Payloads have the fields of others, place by place, each as it comes back from JSON text.
pub open spec fn read_back(
    after: Seq<serde_json::Map<String, serde_json::Value>>,
    before: Seq<serde_json::Map<String, serde_json::Value>>,
) -> bool {
    &&& after.len() == before.len()
    &&& forall|i: int|
        0 <= i < after.len() ==> fields_come_back(
            payload_fields(before[i]),
            #[trigger] payload_fields(after[i]),
        )
}

/// Payloads with the same fields, place by place.
pub open spec fn same_fields(
    a: Seq<serde_json::Map<String, serde_json::Value>>,
    b: Seq<serde_json::Map<String, serde_json::Value>>,
) -> bool {
    &&& a.len() == b.len()
    &&& forall|i: int|
        0 <= i < a.len() ==> #[trigger] payload_fields(a[i]) == payload_fields(b[i])
}

/// Payloads whose fields are all given back by JSON text come back with the same fields.
pub proof fn plain_payloads_come_back(
    after: Seq<serde_json::Map<String, serde_json::Value>>,
    before: Seq<serde_json::Map<String, serde_json::Value>>,
)
    requires
        plain(before),
        read_back(after, before),
    ensures
        same_fields(after, before),
{
    assert forall|i: int| 0 <= i < after.len() implies #[trigger] payload_fields(after[i])
        == payload_fields(before[i]) by {
        let (x, y) = (payload_fields(after[i]), payload_fields(before[i]));
        assert forall|name: Seq<char>| #[trigger] x.contains_key(name) implies x[name] == y[name] by {
            assert(y.dom().contains(name));
            assert(y.contains_key(name));
        }
        assert(x =~= y);
    }
}

/// Where JSON text was written of payloads of scalars, they were read back.
pub open spec fn gives_back(
    json: Seq<u8>,
    read: Result<Vec<serde_json::Map<String, serde_json::Value>>, serde_json::Error>,
) -> bool {
    forall|written: Seq<serde_json::Map<String, serde_json::Value>>|
        scalars(written) && json == #[trigger] payloads_json(written) ==> read is Ok && read_back(
            read->Ok_0@,
            written,
        )
}

/// Calls `serde_json::from_slice`, which reads a value from JSON text or reports an error.
///
/// Payloads of scalars that were written as JSON text are read without error, with the same names.
/// Texts, booleans, null and numbers that are held as integers come back as they were written.
/// Another number is written in its shortest decimal form, with a decimal point or an exponent, and
/// so comes back as a number that is not held as an integer. Where that form has less than 2^53
/// units and at most 22 decimal places, one division of two exact numbers reads it, so that it
/// comes back as it was; fewer than 9 * 10^14 units leave room for the `.0` behind a whole number.
/// Any other may come back with another last bit, and from 2^1023 on it may be too large to be
/// read. Nothing is said of arrays and objects, which may be nested too deep to be read.
#[verifier::external_body]
pub(crate) fn payloads_from_json(json: &[u8]) -> (payloads: Result<Vec<Payload>, serde_json::Error>)
    ensures
        match payloads {
            Ok(p) => payloads_of_json(json@) == Some(p@),
            Err(_) => payloads_of_json(json@) is None,
        },
        gives_back(json@, payloads),
{
    serde_json::from_slice(json)
}

} // verus!
