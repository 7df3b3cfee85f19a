//! JSON documents, which `serde_json` reads and writes.

use vstd::prelude::*;

use crate::text;

verus! {

/// What a JSON value is.
pub enum JsonModel {
    /// `null`, a truth value or a number, by its text.
    Scalar(Seq<char>),
    /// A string.
    Text(Seq<char>),
    /// An array.
    List(Seq<JsonModel>),
    /// An object.
    Object(Map<Seq<char>, JsonModel>),
}

/// Two values are the same down to depth `n`, but for scalars.
pub open spec fn alike(a: JsonModel, b: JsonModel, n: nat) -> bool
    decreases n,
{
    n > 0 ==> match (a, b) {
        (JsonModel::Scalar(_), JsonModel::Scalar(_)) => true,
        (JsonModel::Text(s), JsonModel::Text(t)) => s == t,
        (JsonModel::List(x), JsonModel::List(y)) => x.len() == y.len() && forall|i: int|
            0 <= i < x.len() ==> alike(#[trigger] x[i], y[i], (n - 1) as nat),
        (JsonModel::Object(f), JsonModel::Object(g)) => f.dom() == g.dom() && forall|k: Seq<char>|
            f.dom().contains(k) ==> alike(#[trigger] f[k], g[k], (n - 1) as nat),
        _ => false,
    }
}

/// How deep a value may be nested for its text to be read again.
pub const READ_DEPTH: usize = 100;

/// The value is nested no deeper than `n`, and the text of each of its scalars
/// can be read.
pub open spec fn readable(value: JsonModel, n: nat) -> bool
    decreases n,
{
    match value {
        JsonModel::Scalar(text) => json_read(text) is Ok,
        JsonModel::Text(_) => true,
        JsonModel::List(values) => n > 0 && forall|i: int|
            0 <= i < values.len() ==> readable(#[trigger] values[i], (n - 1) as nat),
        JsonModel::Object(fields) => n > 0 && forall|k: Seq<char>|
            fields.dom().contains(k) ==> readable(#[trigger] fields[k], (n - 1) as nat),
    }
}

/// A value as `serde_json` holds it.
#[verifier::external_type_specification]
#[verifier::external_body]
pub struct ExValue(serde_json::Value);

/// What a `serde_json::Value` holds.
pub uninterp spec fn content(value: serde_json::Value) -> JsonModel;

/// What `serde_json::from_str` reads a text as, or its complaint.
pub uninterp spec fn json_read(text: Seq<char>) -> Result<JsonModel, Seq<char>>;

/// What `serde_json::from_str` reads a text as when an object is asked for, or
/// its complaint.
pub uninterp spec fn json_object_read(text: Seq<char>) -> Result<
    Map<Seq<char>, JsonModel>,
    Seq<char>,
>;

/// What a value is printed as.
pub uninterp spec fn json_printed(value: JsonModel) -> Seq<char>;

/// The compact text that `serde_json::to_string` gives a value.
pub uninterp spec fn json_text(value: JsonModel) -> Seq<char>;

/// The indented text that `serde_json::to_string_pretty` gives a value.
pub uninterp spec fn json_pretty_text(value: JsonModel) -> Seq<char>;

/// `serde_json::from_str` into a `serde_json::Value`: the value or the complaint
/// is a function of the text.
#[verifier::external_body]
pub(crate) fn parse_value(text: &str) -> (r: Result<serde_json::Value, String>)
    ensures
        match r {
            Ok(value) => json_read(text@) == Ok::<JsonModel, Seq<char>>(content(value)),
            Err(complaint) => json_read(text@) == Err::<JsonModel, Seq<char>>(complaint@),
        },
{
    serde_json::from_str(text).map_err(|e| e.to_string())
}

/// `serde_json::from_str` into a `serde_json::Map`, whose fields are handed out
/// one by one: the object or the complaint is a function of the text, and an
/// object names no field twice.
#[verifier::external_body]
pub(crate) fn parse_object(text: &str) -> (r: Result<Vec<(String, serde_json::Value)>, String>)
    ensures
        match r {
            Ok(fields) => distinct_fields(fields@) && json_object_read(text@) == Ok::<
                Map<Seq<char>, JsonModel>,
                Seq<char>,
            >(object_of(fields@)),
            Err(complaint) => json_object_read(text@) == Err::<
                Map<Seq<char>, JsonModel>,
                Seq<char>,
            >(complaint@),
        },
{
    let fields: Result<serde_json::Map<String, serde_json::Value>, serde_json::Error> =
        serde_json::from_str(text);
    fields.map(|f| f.into_iter().collect()).map_err(|e| e.to_string())
}

/// `Display` of a `serde_json::Value`: the text is a function of the value, and a
/// scalar is printed as its own text.
#[verifier::external_body]
pub(crate) fn print_value(value: &serde_json::Value) -> (r: String)
    ensures
        r@ == json_printed(content(*value)),
        content(*value) matches JsonModel::Scalar(text) ==> r@ == text,
{
    value.to_string()
}

/// `serde_json::to_string` of a `serde_json::Value`: it succeeds, every key being
/// a string, and the text is a function of the value. The text can be read when
/// the value is nested no deeper than [`READ_DEPTH`] and its scalars can be read;
/// and what is read is the same value but for the numbers. Left unsaid is which
/// numbers can be read, since those near the limits may be refused, and that a
/// number comes back as it was, since it may come back as a neighbouring one.
#[verifier::external_body]
pub(crate) fn write_value(value: &serde_json::Value) -> (r: Result<String, String>)
    ensures
        match r {
            Ok(text) => {
                &&& text@ == json_text(content(*value))
                &&& readable(content(*value), READ_DEPTH as nat) ==> json_read(text@) is Ok
                &&& json_read(text@) matches Ok(back) ==> forall|n: nat|
                    alike(back, content(*value), n)
            },
            Err(_) => false,
        },
{
    serde_json::to_string(value).map_err(|e| e.to_string())
}

/// `serde_json::to_string_pretty` of a `serde_json::Value`: it succeeds, every
/// key being a string, and the text is a function of the value. It can be read
/// back as the compact text can.
#[verifier::external_body]
pub(crate) fn write_value_pretty(value: &serde_json::Value) -> (r: Result<String, String>)
    ensures
        match r {
            Ok(text) => {
                &&& text@ == json_pretty_text(content(*value))
                &&& readable(content(*value), READ_DEPTH as nat) ==> json_read(text@) is Ok
                &&& json_read(text@) matches Ok(back) ==> forall|n: nat|
                    alike(back, content(*value), n)
            },
            Err(_) => false,
        },
{
    serde_json::to_string_pretty(value).map_err(|e| e.to_string())
}

/// What each value holds.
pub open spec fn contents(values: Seq<serde_json::Value>) -> Seq<JsonModel> {
    values.map_values(|v: serde_json::Value| content(v))
}

/// The object of the first `n` fields.
pub open spec fn first_fields(fields: Seq<(String, serde_json::Value)>, n: int) -> Map<
    Seq<char>,
    JsonModel,
>
    decreases n,
{
    if n <= 0 {
        Map::empty()
    } else {
        first_fields(fields, n - 1).insert(fields[n - 1].0@, content(fields[n - 1].1))
    }
}

/// The object of the fields.
pub open spec fn object_of(fields: Seq<(String, serde_json::Value)>) -> Map<Seq<char>, JsonModel> {
    first_fields(fields, fields.len() as int)
}

/// No field is named twice.
pub open spec fn distinct_fields(fields: Seq<(String, serde_json::Value)>) -> bool {
    forall|a: int, b: int|
        0 <= a < b < fields.len() ==> (#[trigger] fields[a]).0@ != (#[trigger] fields[b]).0@
}

/// A value, its outermost layer taken apart.
pub enum Layer {
    /// `null`.
    Null,
    /// A truth value or a number.
    Scalar(serde_json::Value),
    /// A string.
    Text(String),
    /// An array.
    List(Vec<serde_json::Value>),
    /// An object, field by field.
    Object(Vec<(String, serde_json::Value)>),
}

impl View for Layer {
    type V = JsonModel;

    open spec fn view(&self) -> JsonModel {
        match *self {
            Layer::Null => JsonModel::Scalar("null"@),
            Layer::Scalar(value) => content(value),
            Layer::Text(text) => JsonModel::Text(text@),
            Layer::List(values) => JsonModel::List(contents(values@)),
            Layer::Object(fields) => JsonModel::Object(object_of(fields@)),
        }
    }
}

/// The variants of `serde_json::Value`, told apart; the fields of a
/// `serde_json::Map` are handed out one by one, each under its own name.
#[verifier::external_body]
pub(crate) fn unfold(value: serde_json::Value) -> (r: Layer)
    ensures
        r@ == content(value),
        r is Scalar ==> content(value) is Scalar,
        r matches Layer::Object(fields) ==> distinct_fields(fields@),
{
    match value {
        serde_json::Value::Null => Layer::Null,
        serde_json::Value::Bool(b) => Layer::Scalar(serde_json::Value::Bool(b)),
        serde_json::Value::Number(n) => Layer::Scalar(serde_json::Value::Number(n)),
        serde_json::Value::String(s) => Layer::Text(s),
        serde_json::Value::Array(values) => Layer::List(values),
        serde_json::Value::Object(fields) => Layer::Object(fields.into_iter().collect()),
    }
}

/// The variants of `serde_json::Value`, put together again; a `serde_json::Map`
/// is collected from fields of different names.
#[verifier::external_body]
pub(crate) fn fold(layer: Layer) -> (r: serde_json::Value)
    requires
        layer matches Layer::Object(fields) ==> distinct_fields(fields@),
    ensures
        content(r) == layer@,
{
    match layer {
        Layer::Null => serde_json::Value::Null,
        Layer::Scalar(value) => value,
        Layer::Text(text) => serde_json::Value::String(text),
        Layer::List(values) => serde_json::Value::Array(values),
        Layer::Object(fields) => serde_json::Value::Object(fields.into_iter().collect()),
    }
}

/// `From<u64>` of `serde_json::Value`: a number, whose text is its decimal
/// notation.
#[verifier::external_body]
pub(crate) fn count(n: u64) -> (r: serde_json::Value)
    ensures
        content(r) == JsonModel::Scalar(text::decimal(n as nat)),
{
    serde_json::Value::from(n)
}

/// A field of an object.
pub open spec fn field(object: Map<Seq<char>, JsonModel>, name: Seq<char>) -> Option<JsonModel> {
    if object.dom().contains(name) {
        Some(object[name])
    } else {
        None
    }
}

proof fn fields_are_found(fields: Seq<(String, serde_json::Value)>, n: int)
    requires
        distinct_fields(fields),
        0 <= n <= fields.len(),
    ensures
        forall|i: int|
            0 <= i < n ==> first_fields(fields, n).dom().contains((#[trigger] fields[i]).0@)
                && first_fields(fields, n)[fields[i].0@] == content(fields[i].1),
        forall|k: Seq<char>|
            first_fields(fields, n).dom().contains(k) ==> exists|i: int|
                0 <= i < n && (#[trigger] fields[i]).0@ == k,
    decreases n,
{
    if n > 0 {
        fields_are_found(fields, n - 1);
        assert forall|k: Seq<char>| first_fields(fields, n).dom().contains(k) implies exists|i: int|
            0 <= i < n && (#[trigger] fields[i]).0@ == k by {
            if k == fields[n - 1].0@ {
                assert(fields[n - 1].0@ == k);
            } else {
                assert(first_fields(fields, n - 1).dom().contains(k));
            }
        }
    }
}

/// Take a field out of an object.
pub(crate) fn take_field(fields: &mut Vec<(String, serde_json::Value)>, name: &str) -> (r: Option<
    serde_json::Value,
>)
    requires
        distinct_fields(old(fields)@),
    ensures
        distinct_fields(final(fields)@),
        object_of(final(fields)@) == object_of(old(fields)@).remove(name@),
        match r {
            Some(value) => field(object_of(old(fields)@), name@) == Some(content(value)),
            None => field(object_of(old(fields)@), name@) is None,
        },
{
    let ghost before = fields@;
    let key = name.to_owned();
    let mut i: usize = 0;
    while i < fields.len()
        invariant
            fields@ == before,
            distinct_fields(before),
            before == old(fields)@,
            key@ == name@,
            i <= before.len(),
            forall|k: int| 0 <= k < i ==> (#[trigger] before[k]).0@ != name@,
        decreases before.len() - i,
    {
        if fields[i].0 == key {
            let (_, value) = fields.remove(i);
            proof {
                let after = fields@;
                assert(after =~= before.remove(i as int));
                assert forall|a: int, b: int| 0 <= a < b < after.len() implies (
                #[trigger] after[a]).0@ != (#[trigger] after[b]).0@ by {
                    let c = if a < i { a } else { a + 1 };
                    let d = if b < i { b } else { b + 1 };
                    assert(after[a] == before[c] && after[b] == before[d]);
                }
                fields_are_found(before, before.len() as int);
                fields_are_found(after, after.len() as int);
                let left = object_of(before).remove(name@);
                assert forall|k: Seq<char>| #[trigger]
                    object_of(after).dom().contains(k) == left.dom().contains(k) by {
                    if object_of(after).dom().contains(k) {
                        let j = choose|j: int| 0 <= j < after.len() && (#[trigger] after[j]).0@ == k;
                        let c = if j < i { j } else { j + 1 };
                        assert(after[j] == before[c]);
                        assert(before[c].0@ != before[i as int].0@);
                    }
                    if left.dom().contains(k) {
                        let j = choose|j: int|
                            0 <= j < before.len() && (#[trigger] before[j]).0@ == k;
                        let c = if j < i { j } else { j - 1 };
                        assert(j != i);
                        assert(after[c] == before[j]);
                    }
                }
                assert forall|k: Seq<char>| #[trigger]
                    object_of(after).dom().contains(k) implies object_of(after)[k] == left[k] by {
                    let j = choose|j: int| 0 <= j < after.len() && (#[trigger] after[j]).0@ == k;
                    let c = if j < i { j } else { j + 1 };
                    assert(after[j] == before[c]);
                }
                assert(object_of(after) =~= left);
                assert(before[i as int].1 == value);
            }
            return Some(value);
        }
        i = i + 1;
    }
    proof {
        fields_are_found(before, before.len() as int);
        if object_of(before).dom().contains(name@) {
            let j = choose|j: int| 0 <= j < before.len() && (#[trigger] before[j]).0@ == name@;
            assert(before[j].0@ != name@);
        }
        assert(object_of(before) =~= object_of(before).remove(name@));
    }
    None
}

/// Give an object a field, in place of the one of that name it may have.
pub(crate) fn put_field(
    fields: &mut Vec<(String, serde_json::Value)>,
    name: &str,
    value: serde_json::Value,
)
    requires
        distinct_fields(old(fields)@),
    ensures
        distinct_fields(final(fields)@),
        object_of(final(fields)@) == object_of(old(fields)@).insert(name@, content(value)),
{
    let ghost before = object_of(fields@);
    let _ = take_field(fields, name);
    let ghost rest = fields@;
    fields.push((name.to_owned(), value));
    proof {
        let after = fields@;
        fields_are_found(rest, rest.len() as int);
        assert forall|a: int, b: int| 0 <= a < b < after.len() implies (
        #[trigger] after[a]).0@ != (#[trigger] after[b]).0@ by {
            assert(after[a] == rest[a]);
            if b < rest.len() {
                assert(after[b] == rest[b]);
            }
        }
        same_first_fields(rest, after, rest.len() as int);
        assert(object_of(after) =~= before.insert(name@, content(value)));
    }
}

proof fn same_first_fields(
    a: Seq<(String, serde_json::Value)>,
    b: Seq<(String, serde_json::Value)>,
    n: int,
)
    requires
        0 <= n <= a.len(),
        n <= b.len(),
        forall|i: int| 0 <= i < n ==> a[i] == b[i],
    ensures
        first_fields(a, n) == first_fields(b, n),
    decreases n,
{
    if n > 0 {
        same_first_fields(a, b, n - 1);
    }
}

} // verus!
