//! JSON values as plain data, and the calls into the `json` crate that
//! read them from text and write them as text. The contracts of those calls
//! are not proved: each restates what the crate does.

use vstd::prelude::*;
use json::JsonValue;

verus! {

/// A JSON value. A number is held as the decimal that the text gave:
/// `mantissa` times ten to the power `exponent`, with a sign. No text
/// gives `NotANumber`; a value built in memory can hold it, and is then
/// written as `null`.
#[derive(Debug, PartialEq, Eq)]
pub enum Json {
    Null,
    Boolean(bool),
    Number { positive: bool, mantissa: u64, exponent: i16 },
    NotANumber,
    Text(String),
    Array(Vec<Json>),
    Object(Vec<(String, Json)>),
}

/// A JSON value as a mathematical value.
pub enum JsonView {
    Null,
    Boolean(bool),
    Number { positive: bool, mantissa: u64, exponent: i16 },
    NotANumber,
    Text(Seq<char>),
    Array(Seq<JsonView>),
    Object(Seq<(Seq<char>, JsonView)>),
}

/// The value that `json` holds.
pub open spec fn json_view(json: Json) -> JsonView
    decreases json,
{
    match json {
        Json::Null => JsonView::Null,
        Json::Boolean(b) => JsonView::Boolean(b),
        Json::Number { positive, mantissa, exponent } => JsonView::Number {
            positive,
            mantissa,
            exponent,
        },
        Json::NotANumber => JsonView::NotANumber,
        Json::Text(s) => JsonView::Text(s@),
        Json::Array(items) => JsonView::Array(item_views(items@)),
        Json::Object(entries) => JsonView::Object(entry_views(entries@)),
    }
}

/// The values of the items of an array, in order.
pub open spec fn item_views(items: Seq<Json>) -> Seq<JsonView>
    decreases items,
{
    if items.len() == 0 {
        Seq::empty()
    } else {
        item_views(items.drop_last()).push(json_view(items.last()))
    }
}

/// The keys and values of the entries of an object, in order.
pub open spec fn entry_views(entries: Seq<(String, Json)>) -> Seq<(Seq<char>, JsonView)>
    decreases entries,
{
    if entries.len() == 0 {
        Seq::empty()
    } else {
        entry_views(entries.drop_last()).push((entries.last().0@, json_view(entries.last().1)))
    }
}

impl View for Json {
    type V = JsonView;

    open spec fn view(&self) -> JsonView {
        json_view(*self)
    }
}

/// The values of an array stand one for one in their places.
pub proof fn lemma_item_views(items: Seq<Json>)
    ensures
        item_views(items).len() == items.len(),
        forall|i: int| 0 <= i < items.len() ==> #[trigger] item_views(items)[i] == items[i]@,
    decreases items.len(),
{
    if items.len() > 0 {
        lemma_item_views(items.drop_last());
    }
}

/// The entries of an object stand one for one in their places.
pub proof fn lemma_entry_views(entries: Seq<(String, Json)>)
    ensures
        entry_views(entries).len() == entries.len(),
        forall|i: int|
            0 <= i < entries.len() ==> #[trigger] entry_views(entries)[i] == (
                entries[i].0@,
                entries[i].1@,
            ),
    decreases entries.len(),
{
    if entries.len() > 0 {
        lemma_entry_views(entries.drop_last());
    }
}

/// Whether no two entries of an object have the same key.
pub open spec fn distinct_keys(entries: Seq<(Seq<char>, JsonView)>) -> bool {
    forall|i: int, j: int|
        0 <= i < entries.len() && 0 <= j < entries.len() && i != j ==> entries[i].0 != entries[j].0
}

/// Whether a value is in the form in which the `json` crate holds it: a
/// number below one unit carries no trailing zero in its mantissa, and an
/// object holds each key once.
pub open spec fn canonical(value: JsonView) -> bool
    decreases value,
{
    match value {
        JsonView::Number { positive, mantissa, exponent } => exponent >= 0 || mantissa % 10 != 0,
        JsonView::Array(items) => forall|i: int|
            0 <= i < items.len() ==> canonical(#[trigger] items[i]),
        JsonView::Object(entries) => distinct_keys(entries) && forall|i: int|
            0 <= i < entries.len() ==> canonical((#[trigger] entries[i]).1),
        _ => true,
    }
}

/// `json::JsonValue`, whose inside the proofs do not see.
#[verifier::external_type_specification]
#[verifier::external_body]
pub struct ExJsonValue(JsonValue);

/// What a value of the `json` crate holds.
pub uninterp spec fn json_contents(value: JsonValue) -> JsonView;

/// The value that the `json` crate reads from a text, where it reads one.
pub uninterp spec fn parsed_json(text: Seq<char>) -> Option<JsonView>;

/// The text that the `json` crate writes for a value.
pub uninterp spec fn json_text(value: JsonView) -> Seq<char>;

/// The longest run of decimal digits that a text may hold for the `json`
/// crate to read it: the crate counts the digits behind a decimal point
/// in sixteen bits, without a check.
pub const MAX_DIGIT_RUN: usize = 32767;

/// Whether a byte is an ASCII decimal digit.
pub open spec fn is_digit(byte: u8) -> bool {
    0x30 <= byte <= 0x39
}

/// The length of the run of digits that ends just before position `end`.
pub open spec fn digit_run(bytes: Seq<u8>, end: int) -> nat
    decreases end,
{
    if end <= 0 || end > bytes.len() || !is_digit(bytes[end - 1]) {
        0
    } else {
        1 + digit_run(bytes, end - 1)
    }
}

/// Whether no run of digits in `bytes` is longer than `MAX_DIGIT_RUN`.
pub open spec fn digit_runs_fit(bytes: Seq<u8>) -> bool {
    forall|end: int| 0 <= end <= bytes.len() ==> #[trigger] digit_run(bytes, end) <= MAX_DIGIT_RUN
}

/// Whether no run of digits in `bytes` is longer than `MAX_DIGIT_RUN`.
pub fn has_fitting_digit_runs(bytes: &[u8]) -> (fit: bool)
    ensures
        fit == digit_runs_fit(bytes@),
{
    let mut run: usize = 0;
    let mut i: usize = 0;
    while i < bytes.len()
        invariant
            i <= bytes@.len(),
            run == digit_run(bytes@, i as int),
            run <= MAX_DIGIT_RUN,
            forall|end: int| 0 <= end <= i ==> #[trigger] digit_run(bytes@, end) <= MAX_DIGIT_RUN,
        decreases bytes@.len() - i,
    {
        if 0x30 <= bytes[i] && bytes[i] <= 0x39 {
            if run == MAX_DIGIT_RUN {
                assert(digit_run(bytes@, i + 1) == MAX_DIGIT_RUN + 1);
                return false;
            }
            run += 1;
        } else {
            run = 0;
        }
        i += 1;
    }
    true
}

/// `json::parse`: the value that a text describes, or nothing where the
/// text is not JSON. The outcome depends on the text alone. The crate
/// lowers a 16-bit exponent once for each digit behind a decimal point,
/// and panics or wraps when there are more than it can count: the text is
/// asked to hold no run of digits that long.
#[verifier::external_body]
pub(crate) fn json_parse(text: &str) -> (res: Option<JsonValue>)
    requires
        digit_runs_fit(vstd::utf8::encode_utf8(text@)),
    ensures
        res is Some == parsed_json(text@) is Some,
        res is Some ==> json_contents(res->Some_0) == parsed_json(text@)->Some_0,
{
    json::parse(text).ok()
}

/// What each value of a sequence holds.
pub open spec fn member_contents(values: Seq<JsonValue>) -> Seq<JsonView> {
    Seq::new(values.len(), |i: int| json_contents(values[i]))
}

/// What each borrowed value of a sequence holds.
pub open spec fn borrowed_contents(values: Seq<&JsonValue>) -> Seq<JsonView> {
    Seq::new(values.len(), |i: int| json_contents(*values[i]))
}

/// The key of each entry with what its value holds.
pub open spec fn entry_contents(entries: Seq<(String, JsonValue)>) -> Seq<(Seq<char>, JsonView)> {
    Seq::new(entries.len(), |i: int| (entries[i].0@, json_contents(entries[i].1)))
}

/// The key of each entry with what its borrowed value holds.
pub open spec fn borrowed_entry_contents(entries: Seq<(String, &JsonValue)>) -> Seq<
    (Seq<char>, JsonView),
> {
    Seq::new(entries.len(), |i: int| (entries[i].0@, json_contents(*entries[i].1)))
}

/// Whether a value is neither an array nor an object.
pub open spec fn is_scalar(value: JsonView) -> bool {
    !(value is Array) && !(value is Object)
}

/// The variants of `JsonValue` that hold no further values, copied into a
/// `Json`: both kinds of string become `Text`; a number hands over the
/// parts that `Number::as_parts` gives, unless `Number::is_nan` tells that
/// it is none. Nothing for an array or an object.
#[verifier::external_body]
pub(crate) fn json_scalar(value: &JsonValue) -> (res: Option<Json>)
    ensures
        res is Some == is_scalar(json_contents(*value)),
        res is Some ==> res->Some_0@ == json_contents(*value),
{
    match value {
        JsonValue::Null => Some(Json::Null),
        JsonValue::Boolean(b) => Some(Json::Boolean(*b)),
        JsonValue::Short(s) => Some(Json::Text(s.as_str().to_string())),
        JsonValue::String(s) => Some(Json::Text(s.clone())),
        JsonValue::Number(n) if n.is_nan() => Some(Json::NotANumber),
        JsonValue::Number(n) => {
            let (positive, mantissa, exponent) = n.as_parts();
            Some(Json::Number { positive, mantissa, exponent })
        },
        JsonValue::Array(_) | JsonValue::Object(_) => None,
    }
}

/// The items of a `JsonValue::Array`, in order; nothing for another
/// variant.
#[verifier::external_body]
pub(crate) fn json_members(value: &JsonValue) -> (res: Option<Vec<&JsonValue>>)
    ensures
        res is Some == json_contents(*value) is Array,
        res is Some ==> json_contents(*value) == JsonView::Array(
            borrowed_contents(res->Some_0@),
        ),
{
    match value {
        JsonValue::Array(items) => Some(items.iter().collect()),
        _ => None,
    }
}

/// The entries of a `JsonValue::Object` as `Object::iter` gives them, in
/// the order in which they were put in; nothing for another variant.
#[verifier::external_body]
pub(crate) fn json_entries(value: &JsonValue) -> (res: Option<Vec<(String, &JsonValue)>>)
    ensures
        res is Some == json_contents(*value) is Object,
        res is Some ==> json_contents(*value) == JsonView::Object(
            borrowed_entry_contents(res->Some_0@),
        ),
{
    match value {
        JsonValue::Object(object) => Some(
            object.iter().map(|(key, entry)| (key.to_string(), entry)).collect(),
        ),
        _ => None,
    }
}

/// A `JsonValue` for a `Json` that holds no further values. A number goes
/// through `Number::from_parts`, which strips trailing zeros below one
/// unit: a canonical number comes out as it went in. `NotANumber` is the
/// crate's constant `NAN`.
#[verifier::external_body]
pub(crate) fn json_from_scalar(json: &Json) -> (res: JsonValue)
    requires
        is_scalar(json@),
        canonical(json@),
    ensures
        json_contents(res) == json@,
{
    match json {
        Json::Boolean(b) => JsonValue::Boolean(*b),
        Json::Text(s) => JsonValue::String(s.clone()),
        Json::Number { positive, mantissa, exponent } => JsonValue::Number(
            json::number::Number::from_parts(*positive, *mantissa, *exponent),
        ),
        Json::NotANumber => JsonValue::Number(json::number::NAN),
        _ => JsonValue::Null,
    }
}

/// `JsonValue::Array` of the given items.
#[verifier::external_body]
pub(crate) fn json_from_items(items: Vec<JsonValue>) -> (res: JsonValue)
    ensures
        json_contents(res) == JsonView::Array(member_contents(items@)),
{
    JsonValue::Array(items)
}

/// `JsonValue::Object` filled by `Object::insert`, entry by entry. An
/// insertion under a key that is there replaces the value, so the keys are
/// asked to differ: the object then holds the entries in their order.
#[verifier::external_body]
pub(crate) fn json_from_entries(entries: Vec<(String, JsonValue)>) -> (res: JsonValue)
    requires
        distinct_keys(entry_contents(entries@)),
    ensures
        json_contents(res) == JsonView::Object(entry_contents(entries@)),
{
    let mut object = json::object::Object::new();
    for (key, value) in entries {
        object.insert(&key, value);
    }
    JsonValue::Object(object)
}

/// Copies a value of the `json` crate into a `Json`.
#[verifier::loop_isolation(false)]
pub fn json_lower(value: &JsonValue) -> (res: Json)
    ensures
        res@ == json_contents(*value),
    decreases json_contents(*value),
{
    if let Some(leaf) = json_scalar(value) {
        return leaf;
    }
    if let Some(members) = json_members(value) {
        let ghost wanted = borrowed_contents(members@);
        let mut items: Vec<Json> = Vec::new();
        let mut i: usize = 0;
        assert(item_views(items@) =~= wanted.take(0));
        while i < members.len()
            invariant
                i <= members@.len(),
                wanted == borrowed_contents(members@),
                json_contents(*value) == JsonView::Array(wanted),
                item_views(items@) == wanted.take(i as int),
            decreases members@.len() - i,
        {
            let ghost held = items@;
            proof {
                assert(wanted[i as int] == json_contents(*members@[i as int]));
                assert(json_contents(*value)->Array_0 == wanted);
                assert(decreases_to!(json_contents(*value) => json_contents(*value)->Array_0));
                assert(decreases_to!(wanted => wanted[i as int]));
            }
            let item = json_lower(members[i]);
            items.push(item);
            proof {
                assert(items@.drop_last() =~= held);
                assert(item_views(items@) =~= wanted.take(i + 1));
            }
            i += 1;
        }
        assert(wanted.take(i as int) =~= wanted);
        return Json::Array(items);
    }
    match json_entries(value) {
        Some(pairs) => {
            let ghost wanted = borrowed_entry_contents(pairs@);
            let mut entries: Vec<(String, Json)> = Vec::new();
            let mut i: usize = 0;
            assert(entry_views(entries@) =~= wanted.take(0));
            while i < pairs.len()
                invariant
                    i <= pairs@.len(),
                    wanted == borrowed_entry_contents(pairs@),
                    json_contents(*value) == JsonView::Object(wanted),
                    entry_views(entries@) == wanted.take(i as int),
                decreases pairs@.len() - i,
            {
                let ghost held = entries@;
                proof {
                    assert(wanted[i as int] == (
                        pairs@[i as int].0@,
                        json_contents(*pairs@[i as int].1),
                    ));
                    assert(json_contents(*value)->Object_0 == wanted);
                    assert(decreases_to!(json_contents(*value) => json_contents(*value)->Object_0));
                    assert(decreases_to!(wanted => wanted[i as int]));
                    assert(decreases_to!(wanted[i as int] => wanted[i as int].1));
                }
                let entry = json_lower(pairs[i].1);
                entries.push((pairs[i].0.clone(), entry));
                proof {
                    assert(entries@.drop_last() =~= held);
                    assert(entry_views(entries@) =~= wanted.take(i + 1));
                }
                i += 1;
            }
            assert(wanted.take(i as int) =~= wanted);
            Json::Object(entries)
        },
        None => unreached(),
    }
}

/// Whether the key of entry `at` differs from the key of every entry
/// before it.
fn key_is_new(entries: &Vec<(String, Json)>, at: usize) -> (fresh: bool)
    requires
        at < entries@.len(),
    ensures
        fresh == (forall|j: int| 0 <= j < at ==> entries@[j].0@ != entries@[at as int].0@),
{
    let mut j: usize = 0;
    while j < at
        invariant
            j <= at < entries@.len(),
            forall|k: int| 0 <= k < j ==> entries@[k].0@ != entries@[at as int].0@,
        decreases at - j,
    {
        if entries[j].0 == entries[at].0 {
            return false;
        }
        j += 1;
    }
    true
}

/// Whether a value is in canonical form.
#[verifier::loop_isolation(false)]
pub fn is_canonical(json: &Json) -> (res: bool)
    ensures
        res == canonical(json@),
    decreases json,
{
    match json {
        Json::Number { positive, mantissa, exponent } => *exponent >= 0 || *mantissa % 10 != 0,
        Json::Array(items) => {
            let ghost views = item_views(items@);
            proof {
                lemma_item_views(items@);
                assert(json@ == JsonView::Array(views));
            }
            let mut i: usize = 0;
            while i < items.len()
                invariant
                    i <= items@.len(),
                    forall|j: int| 0 <= j < i ==> canonical(#[trigger] views[j]),
                decreases items@.len() - i,
            {
                if !is_canonical(&items[i]) {
                    assert(!canonical(views[i as int]));
                    assert(json@->Array_0[i as int] == views[i as int]);
                    return false;
                }
                i += 1;
            }
            true
        },
        Json::Object(entries) => {
            let ghost views = entry_views(entries@);
            proof {
                lemma_entry_views(entries@);
                assert(json@ == JsonView::Object(views));
            }
            let mut i: usize = 0;
            while i < entries.len()
                invariant
                    i <= entries@.len(),
                    forall|j: int| 0 <= j < i ==> canonical((#[trigger] views[j]).1),
                    forall|j: int, k: int| 0 <= j < k < i ==> views[j].0 != views[k].0,
                decreases entries@.len() - i,
            {
                if !key_is_new(entries, i) {
                    let ghost j = choose|j: int|
                        0 <= j < i && entries@[j].0@ == entries@[i as int].0@;
                    assert(views[j].0 == views[i as int].0);
                    assert(!distinct_keys(views));
                    return false;
                }
                if !is_canonical(&entries[i].1) {
                    assert(!canonical(views[i as int].1));
                    assert(json@->Object_0[i as int] == views[i as int]);
                    return false;
                }
                i += 1;
            }
            proof {
                assert forall|j: int, k: int|
                    0 <= j < views.len() && 0 <= k < views.len() && j != k implies views[j].0
                    != views[k].0 by {
                    if j < k {
                    } else {
                        assert(views[k].0 != views[j].0);
                    }
                }
            }
            true
        },
        _ => true,
    }
}

/// Copies a `Json` in canonical form into a value of the `json` crate.
#[verifier::loop_isolation(false)]
pub fn json_raise(json: &Json) -> (res: JsonValue)
    requires
        canonical(json@),
    ensures
        json_contents(res) == json@,
    decreases json,
{
    match json {
        Json::Array(items) => {
            let ghost wanted = item_views(items@);
            proof {
                lemma_item_views(items@);
                assert(json@ == JsonView::Array(wanted));
                assert(canonical(JsonView::Array(wanted)));
                assert forall|j: int| 0 <= j < wanted.len() implies canonical(
                    #[trigger] wanted[j],
                ) by {
                    assert(canonical(json@));
                    assert(json@->Array_0[j] == wanted[j]);
                }
            }
            let mut values: Vec<JsonValue> = Vec::new();
            let mut i: usize = 0;
            while i < items.len()
                invariant
                    i <= items@.len(),
                    wanted == item_views(items@),
                    wanted.len() == items@.len(),
                    forall|j: int| 0 <= j < items@.len() ==> #[trigger] wanted[j] == items@[j]@,
                    forall|j: int| 0 <= j < wanted.len() ==> canonical(#[trigger] wanted[j]),
                    values@.len() == i,
                    forall|j: int|
                        0 <= j < i ==> #[trigger] member_contents(values@)[j] == wanted[j],
                decreases items@.len() - i,
            {
                let ghost before = member_contents(values@);
                assert(canonical(wanted[i as int]));
                let item = json_raise(&items[i]);
                values.push(item);
                proof {
                    assert forall|j: int| 0 <= j < i + 1 implies #[trigger] member_contents(
                        values@,
                    )[j] == wanted[j] by {
                        if j < i {
                            assert(member_contents(values@)[j] == before[j]);
                        }
                    }
                }
                i += 1;
            }
            assert(member_contents(values@) =~= wanted);
            json_from_items(values)
        },
        Json::Object(entries) => {
            let ghost wanted = entry_views(entries@);
            proof {
                lemma_entry_views(entries@);
                assert(json@ == JsonView::Object(wanted));
            }
            let mut pairs: Vec<(String, JsonValue)> = Vec::new();
            let mut i: usize = 0;
            while i < entries.len()
                invariant
                    i <= entries@.len(),
                    wanted == entry_views(entries@),
                    wanted.len() == entries@.len(),
                    forall|j: int|
                        0 <= j < entries@.len() ==> #[trigger] wanted[j] == (
                            entries@[j].0@,
                            entries@[j].1@,
                        ),
                    forall|j: int| 0 <= j < wanted.len() ==> canonical((#[trigger] wanted[j]).1),
                    pairs@.len() == i,
                    forall|j: int|
                        0 <= j < i ==> #[trigger] entry_contents(pairs@)[j] == wanted[j],
                decreases entries@.len() - i,
            {
                let ghost before = entry_contents(pairs@);
                assert(canonical(wanted[i as int].1));
                let value = json_raise(&entries[i].1);
                pairs.push((entries[i].0.clone(), value));
                proof {
                    assert forall|j: int| 0 <= j < i + 1 implies #[trigger] entry_contents(
                        pairs@,
                    )[j] == wanted[j] by {
                        if j < i {
                            assert(entry_contents(pairs@)[j] == before[j]);
                        }
                    }
                }
                i += 1;
            }
            assert(entry_contents(pairs@) =~= wanted);
            json_from_entries(pairs)
        },
        _ => json_from_scalar(json),
    }
}

/// `JsonValue::dump`: the text of a value, without white space. It depends
/// on what the value holds alone.
#[verifier::external_body]
pub(crate) fn json_dump(value: &JsonValue) -> (res: String)
    ensures
        res@ == json_text(json_contents(*value)),
{
    value.dump()
}

} // verus!
