//! JSON values as plain data, read and printed by `serde_json`.
use vstd::prelude::*;

verus! {

/// A JSON value. A number is held as the text `serde_json` prints for it;
/// an object's members are held in order.
#[derive(Debug, PartialEq)]
pub enum Json {
    Null,
    Bool(bool),
    Number(String),
    Str(String),
    Array(Vec<Json>),
    Object(Vec<(String, Json)>),
}

/// A JSON value as text and sequences.
pub enum JsonView {
    Null,
    Bool(bool),
    Number(Seq<char>),
    Str(Seq<char>),
    Array(Seq<JsonView>),
    Object(Seq<(Seq<char>, JsonView)>),
}

impl View for Json {
    type V = JsonView;

    open spec fn view(&self) -> JsonView
        decreases self,
    {
        match self {
            Json::Null => JsonView::Null,
            Json::Bool(b) => JsonView::Bool(*b),
            Json::Number(t) => JsonView::Number(t@),
            Json::Str(t) => JsonView::Str(t@),
            Json::Array(v) => JsonView::Array(
                Seq::new(
                    v@.len(),
                    |i: int|
                        if 0 <= i < v@.len() {
                            v@[i].view()
                        } else {
                            JsonView::Null
                        },
                ),
            ),
            Json::Object(v) => JsonView::Object(
                Seq::new(
                    v@.len(),
                    |i: int|
                        if 0 <= i < v@.len() {
                            v@[i].0@
                        } else {
                            Seq::empty()
                        },
                ).zip_with(
                    Seq::new(
                        v@.len(),
                        |i: int|
                            if 0 <= i < v@.len() {
                                v@[i].1.view()
                            } else {
                                JsonView::Null
                            },
                    ),
                ),
            ),
        }
    }
}

/// A copy of a JSON value.
pub fn json_clone(j: &Json) -> (res: Json)
    ensures
        res@ == j@,
    decreases j,
{
    match j {
        Json::Null => Json::Null,
        Json::Bool(b) => Json::Bool(*b),
        Json::Number(t) => Json::Number(t.clone()),
        Json::Str(t) => Json::Str(t.clone()),
        Json::Array(v) => {
            let mut out: Vec<Json> = Vec::new();
            let mut i: usize = 0;
            while i < v.len()
                invariant
                    *j == Json::Array(*v),
                    i <= v.len(),
                    out@.len() == i,
                    forall|k: int| 0 <= k < i ==> #[trigger] out@[k]@ == v@[k]@,
                decreases v.len() - i,
            {
                proof {
                    assert(decreases_to!(*j => (*j)->Array_0));
                    assert(decreases_to!(*v => v@));
                    assert(decreases_to!(v@ => v@[i as int]));
                }
                out.push(json_clone(&v[i]));
                i = i + 1;
            }
            let res = Json::Array(out);
            proof {
                let a = match res@ {
                    JsonView::Array(x) => x,
                    _ => Seq::empty(),
                };
                let b = match j@ {
                    JsonView::Array(x) => x,
                    _ => Seq::empty(),
                };
                assert(a.len() == b.len());
                assert forall|k: int| 0 <= k < a.len() implies a[k] == b[k] by {
                    assert(out@[k]@ == v@[k]@);
                }
                assert(a =~= b);
            }
            res
        },
        Json::Object(v) => {
            let mut out: Vec<(String, Json)> = Vec::new();
            let mut i: usize = 0;
            while i < v.len()
                invariant
                    *j == Json::Object(*v),
                    i <= v.len(),
                    out@.len() == i,
                    forall|k: int|
                        0 <= k < i ==> #[trigger] out@[k].0@ == v@[k].0@ && out@[k].1@ == v@[k].1@,
                decreases v.len() - i,
            {
                proof {
                    assert(decreases_to!(*j => (*j)->Object_0));
                    assert(decreases_to!(*v => v@));
                    assert(decreases_to!(v@ => v@[i as int]));
                    assert(decreases_to!(v@[i as int] => v@[i as int].1));
                }
                let (k, x) = &v[i];
                out.push((k.clone(), json_clone(x)));
                i = i + 1;
            }
            let res = Json::Object(out);
            proof {
                let a = match res@ {
                    JsonView::Object(x) => x,
                    _ => Seq::empty(),
                };
                let b = match j@ {
                    JsonView::Object(x) => x,
                    _ => Seq::empty(),
                };
                assert(a.len() == b.len());
                assert forall|k: int| 0 <= k < a.len() implies a[k] == b[k] by {
                    assert(out@[k].0@ == v@[k].0@ && out@[k].1@ == v@[k].1@);
                }
                assert(a =~= b);
            }
            res
        },
    }
}

impl Clone for Json {
    /// A copy, as `json_clone` gives it.
    fn clone(&self) -> (res: Self)
        ensures
            res@ == self@,
    {
        json_clone(self)
    }
}

/// A JSON value of `serde_json`; only the trusted items below handle one.
#[verifier::external_type_specification]
#[verifier::external_body]
pub struct ExJsonValue(serde_json::Value);

/// What `serde_json::from_str` says of a text read as a JSON value: `None`
/// when it is one JSON value, and otherwise the message of the error it
/// reports (which names what went wrong, with line and column).
pub uninterp spec fn json_syntax_error(text: Seq<char>) -> Option<Seq<char>>;

/// The JSON value that `serde_json::from_str` reads from a text, where it
/// reads one.
pub uninterp spec fn json_document(text: Seq<char>) -> JsonView;

/// What `serde_json::to_string_pretty` prints for a JSON value (two-space
/// indentation); `None` where it reports an error.
pub uninterp spec fn json_pretty(value: JsonView) -> Option<Seq<char>>;

/// `serde_json::Value` as a `Json`, variant for variant; numbers by their
/// printed text, objects' members in the order in which the map holds them.
/// Used by `json_parse` alone.
#[verifier::external_body]
fn json_of_value(v: &serde_json::Value) -> Json {
    match v {
        serde_json::Value::Null => Json::Null,
        serde_json::Value::Bool(b) => Json::Bool(*b),
        serde_json::Value::Number(n) => Json::Number(n.to_string()),
        serde_json::Value::String(s) => Json::Str(s.clone()),
        serde_json::Value::Array(a) => Json::Array(a.iter().map(json_of_value).collect()),
        serde_json::Value::Object(m) => Json::Object(
            m.iter().map(|(k, x)| (k.clone(), json_of_value(x))).collect(),
        ),
    }
}

/// A `Json` as `serde_json::Value`, variant for variant; a number whose text
/// `serde_json::Number` does not read becomes `null`. Used by `json_to_pretty`
/// alone.
#[verifier::external_body]
fn value_of_json(j: &Json) -> serde_json::Value {
    match j {
        Json::Null => serde_json::Value::Null,
        Json::Bool(b) => serde_json::Value::Bool(*b),
        Json::Number(t) => t.parse::<serde_json::Number>().map_or(serde_json::Value::Null, serde_json::Value::Number),
        Json::Str(s) => serde_json::Value::String(s.clone()),
        Json::Array(a) => serde_json::Value::Array(a.iter().map(value_of_json).collect()),
        Json::Object(m) => serde_json::Value::Object(
            m.iter().map(|(k, x)| (k.clone(), value_of_json(x))).collect(),
        ),
    }
}

/// Reads `text` as one JSON value with `serde_json::from_str`; an error is
/// given as its message. Whether it succeeds, the message, and the value
/// read depend on the text alone (`json_syntax_error`, `json_document`).
#[verifier::external_body]
pub(crate) fn json_parse(text: &str) -> (res: Result<Json, String>)
    ensures
        res is Ok <==> json_syntax_error(text@) is None,
        res matches Err(m) ==> json_syntax_error(text@) == Some(m@),
        res matches Ok(j) ==> j@ == json_document(text@),
{
    serde_json::from_str::<serde_json::Value>(text).map(|v| json_of_value(&v)).map_err(|e| e.to_string())
}

/// `serde_json::to_string_pretty` of a value, `None` where it reports an
/// error; the text depends on the value alone (`json_pretty`).
#[verifier::external_body]
pub(crate) fn json_to_pretty(j: &Json) -> (res: Option<String>)
    ensures
        res.deep_view() == json_pretty(j@),
{
    serde_json::to_string_pretty(&value_of_json(j)).ok()
}

} // verus!
