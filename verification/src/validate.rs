//! JSON validation for the file tools service: the kind of a value, and a
//! small schema check (`type`, `required` and `properties` types).

use vstd::prelude::*;
use crate::json::{get_member, jv, jv_list, jv_members, lemma_jv_list, lemma_jv_members, member, Json, JsonValue};
use crate::order::chars_equal;
use crate::text::chars_of;

verus! {

/// The name of a value's kind.
pub open spec fn kind_name(j: Json) -> Seq<char> {
    match j {
        Json::Null => "null"@,
        Json::Bool(_) => "boolean"@,
        Json::Number(_, _) => "number"@,
        Json::Str(_) => "string"@,
        Json::Array(_) => "array"@,
        Json::Object(_) => "object"@,
    }
}

/// The name of a value's kind.
pub fn value_kind(v: &JsonValue) -> (r: &'static str)
    ensures
        r@ == kind_name(jv(*v)),
{
    match v {
        JsonValue::Null => "null",
        JsonValue::Bool(_) => "boolean",
        JsonValue::Number(_) => "number",
        JsonValue::String(_) => "string",
        JsonValue::Array(_) => "array",
        JsonValue::Object(_) => "object",
    }
}

/// Whether a value has the named type: `null`, `boolean` (or `bool`),
/// `number`, `integer` (or `int`, a number that is an integer), `string`,
/// `array` or `object`; no value has any other type.
pub open spec fn type_matches(j: Json, expected: Seq<char>) -> bool {
    if expected == "null"@ {
        j is Null
    } else if expected == "boolean"@ || expected == "bool"@ {
        j is Bool
    } else if expected == "number"@ {
        j is Number
    } else if expected == "integer"@ || expected == "int"@ {
        j matches Json::Number(_, integer) && integer
    } else if expected == "string"@ {
        j is Str
    } else if expected == "array"@ {
        j is Array
    } else if expected == "object"@ {
        j is Object
    } else {
        false
    }
}

/// Whether a value has the named type.
pub fn matches_json_type(v: &JsonValue, expected: &str) -> (r: bool)
    ensures
        r == type_matches(jv(*v), expected@),
{
    let e = chars_of(expected);
    let is = |name: &str| -> (b: bool)
        ensures
            b == (e@ == name@),
        { chars_equal(e.as_slice(), chars_of(name).as_slice()) };
    if is("null") {
        v.is_null()
    } else if is("boolean") || is("bool") {
        matches!(v, JsonValue::Bool(_))
    } else if is("number") {
        matches!(v, JsonValue::Number(_))
    } else if is("integer") || is("int") {
        match v {
            JsonValue::Number(n) => n.integer,
            _ => false,
        }
    } else if is("string") {
        matches!(v, JsonValue::String(_))
    } else if is("array") {
        matches!(v, JsonValue::Array(_))
    } else if is("object") {
        matches!(v, JsonValue::Object(_))
    } else {
        false
    }
}

impl JsonValue {
    /// Whether the value is `null`.
    pub fn is_null(&self) -> (r: bool)
        ensures
            r == (jv(*self) is Null),
    {
        matches!(self, JsonValue::Null)
    }
}

/// The member `key` of an object; nothing for other values.
pub open spec fn field(j: Json, key: Seq<char>) -> Option<Json> {
    match j {
        Json::Object(m) => member(m, key),
        _ => None,
    }
}

/// The member `key` of an object value.
fn get_field<'a>(v: &'a JsonValue, key: &str) -> (r: Option<&'a JsonValue>)
    ensures
        r matches Some(x) ==> field(jv(*v), key@) == Some(jv(*x)),
        r is None ==> field(jv(*v), key@) is None,
{
    match v {
        JsonValue::Object(m) => get_member(m, key),
        _ => None,
    }
}

/// The text of a string value.
pub open spec fn str_of(j: Option<Json>) -> Option<Seq<char>> {
    match j {
        Some(Json::Str(s)) => Some(s),
        _ => None,
    }
}

/// The errors for the `required` names missing from the document's members.
pub open spec fn missing_errors(required: Seq<Json>, doc: Seq<(Seq<char>, Json)>) -> Seq<Seq<char>>
    decreases required.len(),
{
    if required.len() == 0 {
        seq![]
    } else {
        missing_errors(required.drop_last(), doc) + match required.last() {
            Json::Str(f) => if member(doc, f) is None {
                seq!["missing required field '"@ + f + "'"@]
            } else {
                seq![]
            },
            _ => seq![],
        }
    }
}

/// The errors for the document members whose type differs from what the
/// `properties` rules name.
pub open spec fn property_errors(props: Seq<(Seq<char>, Json)>, doc: Seq<(Seq<char>, Json)>) -> Seq<Seq<char>>
    decreases props.len(),
{
    if props.len() == 0 {
        seq![]
    } else {
        let (name, rules) = props.last();
        property_errors(props.drop_last(), doc) + match (member(doc, name), str_of(field(rules, "type"@))) {
            (Some(v), Some(t)) => if !type_matches(v, t) {
                seq!["field '"@ + name + "' type is "@ + kind_name(v) + ", expected "@ + t]
            } else {
                seq![]
            },
            _ => seq![],
        }
    }
}

/// The errors of a document against a simple schema: the document's type
/// against `type`, then each `required` name missing from an object
/// document (or one error when the document is not an object), then the
/// type of each document member that `properties` gives a `type` for.
pub open spec fn schema_errors(schema: Json, doc: Json) -> Seq<Seq<char>> {
    let type_errors = match str_of(field(schema, "type"@)) {
        Some(t) => if !type_matches(doc, t) {
            seq!["document type is "@ + kind_name(doc) + ", expected "@ + t]
        } else {
            seq![]
        },
        None => seq![],
    };
    let required_errors = match field(schema, "required"@) {
        Some(Json::Array(req)) => match doc {
            Json::Object(m) => missing_errors(req, m),
            _ => seq!["required can only be checked against an object document"@],
        },
        _ => seq![],
    };
    let prop_errors = match (field(schema, "properties"@), doc) {
        (Some(Json::Object(props)), Json::Object(m)) => property_errors(props, m),
        _ => seq![],
    };
    type_errors + required_errors + prop_errors
}

/// The characters of each string.
pub open spec fn texts(v: Seq<String>) -> Seq<Seq<char>> {
    v.map_values(|s: String| s@)
}

/// Appends `s` to the errors.
fn push_error(errors: &mut Vec<String>, s: String)
    ensures
        texts(final(errors)@) == texts(old(errors)@).push(s@),
{
    let ghost before = texts(errors@);
    errors.push(s);
    proof {
        assert(texts(errors@) =~= before.push(s@));
    }
}

/// Checks a document against a simple schema.
pub fn validate_simple_schema(schema: &JsonValue, document: &JsonValue) -> (r: Vec<String>)
    ensures
        texts(r@) == schema_errors(jv(*schema), jv(*document)),
{
    let ghost s = jv(*schema);
    let ghost d = jv(*document);
    let mut errors: Vec<String> = Vec::new();
    proof {
        assert(texts(errors@) =~= Seq::<Seq<char>>::empty());
    }
    match get_field(schema, "type") {
        Some(JsonValue::String(t)) => {
            if !matches_json_type(document, t.as_str()) {
                let mut msg = String::from_str("document type is ");
                msg.append(value_kind(document));
                msg.append(", expected ");
                msg.append(t.as_str());
                push_error(&mut errors, msg);
            }
        },
        _ => {},
    }
    let ghost after_type = texts(errors@);
    match get_field(schema, "required") {
        Some(JsonValue::Array(req)) => {
            match document {
                JsonValue::Object(m) => {
                    proof {
                        lemma_jv_list(req@);
                    }
                    let mut i: usize = 0;
                    proof {
                        assert(jv_list(req@).take(0) =~= Seq::<Json>::empty());
                    }
                    while i < req.len()
                        invariant
                            i <= req@.len(),
                            jv_list(req@).len() == req@.len(),
                            forall|k: int| 0 <= k < req@.len() ==> #[trigger] jv_list(req@)[k] == jv(req@[k]),
                            d == jv(*document),
                            *document == JsonValue::Object(*m),
                            texts(errors@) == after_type + missing_errors(jv_list(req@).take(i as int), jv_members(m@)),
                        decreases req@.len() - i,
                    {
                        proof {
                            assert(jv_list(req@).take(i + 1).drop_last() =~= jv_list(req@).take(i as int));
                            assert(jv_list(req@).take(i + 1).last() == jv(req@[i as int]));
                        }
                        match &req[i] {
                            JsonValue::String(f) => {
                                if get_member(m, f.as_str()).is_none() {
                                    let mut msg = String::from_str("missing required field '");
                                    msg.append(f.as_str());
                                    msg.append("'");
                                    push_error(&mut errors, msg);
                                    proof {
                                        assert(texts(errors@) =~= after_type + missing_errors(
                                            jv_list(req@).take(i + 1),
                                            jv_members(m@),
                                        ));
                                    }
                                } else {
                                    proof {
                                        assert(texts(errors@) =~= after_type + missing_errors(
                                            jv_list(req@).take(i + 1),
                                            jv_members(m@),
                                        ));
                                    }
                                }
                            },
                            _ => {
                                proof {
                                    assert(texts(errors@) =~= after_type + missing_errors(
                                        jv_list(req@).take(i + 1),
                                        jv_members(m@),
                                    ));
                                }
                            },
                        }
                        i = i + 1;
                    }
                    proof {
                        assert(jv_list(req@).take(req@.len() as int) =~= jv_list(req@));
                    }
                },
                _ => {
                    push_error(
                        &mut errors,
                        String::from_str("required can only be checked against an object document"),
                    );
                },
            }
        },
        _ => {},
    }
    let ghost after_required = texts(errors@);
    match (get_field(schema, "properties"), document) {
        (Some(JsonValue::Object(props)), JsonValue::Object(m)) => {
            proof {
                lemma_jv_members(props@);
            }
            let mut i: usize = 0;
            proof {
                assert(jv_members(props@).take(0) =~= Seq::<(Seq<char>, Json)>::empty());
            }
            while i < props.len()
                invariant
                    i <= props@.len(),
                    jv_members(props@).len() == props@.len(),
                    forall|k: int|
                        0 <= k < props@.len() ==> #[trigger] jv_members(props@)[k] == (
                            props@[k].0@,
                            jv(props@[k].1),
                        ),
                    texts(errors@) == after_required + property_errors(
                        jv_members(props@).take(i as int),
                        jv_members(m@),
                    ),
                decreases props@.len() - i,
            {
                let ghost pm = jv_members(props@);
                proof {
                    assert(pm.take(i + 1).drop_last() =~= pm.take(i as int));
                    assert(pm.take(i + 1).last() == pm[i as int]);
                }
                let name = &props[i].0;
                let rules = &props[i].1;
                match get_member(m, name.as_str()) {
                    Some(value) => match get_field(rules, "type") {
                        Some(JsonValue::String(t)) => {
                            if !matches_json_type(value, t.as_str()) {
                                let mut msg = String::from_str("field '");
                                msg.append(name.as_str());
                                msg.append("' type is ");
                                msg.append(value_kind(value));
                                msg.append(", expected ");
                                msg.append(t.as_str());
                                push_error(&mut errors, msg);
                            }
                        },
                        _ => {},
                    },
                    None => {},
                }
                proof {
                    assert(texts(errors@) =~= after_required + property_errors(pm.take(i + 1), jv_members(m@)));
                }
                i = i + 1;
            }
            proof {
                assert(jv_members(props@).take(props@.len() as int) =~= jv_members(props@));
            }
        },
        _ => {},
    }
    proof {
        assert(texts(errors@) =~= schema_errors(s, d));
    }
    errors
}

/// What validating a parsed JSON body finds: the schema errors when the body
/// is an object with `schema` and `document` members, else the kind of the
/// value.
pub enum Validation {
    Schema(Vec<String>),
    Kind(&'static str),
}

/// Validates a parsed body: an object with both `schema` and `document` is
/// checked in schema mode, any other value is reported by kind.
pub fn validate_document(parsed: &JsonValue) -> (r: Validation)
    ensures
        (field(jv(*parsed), "schema"@) is Some && field(jv(*parsed), "document"@) is Some) ==> (r matches Validation::Schema(errors)
            && texts(errors@) == schema_errors(
            field(jv(*parsed), "schema"@)->0,
            field(jv(*parsed), "document"@)->0,
        )),
        !(field(jv(*parsed), "schema"@) is Some && field(jv(*parsed), "document"@) is Some) ==> (r matches Validation::Kind(k)
            && k@ == kind_name(jv(*parsed))),
{
    match (get_field(parsed, "schema"), get_field(parsed, "document")) {
        (Some(schema), Some(document)) => Validation::Schema(validate_simple_schema(schema, document)),
        _ => Validation::Kind(value_kind(parsed)),
    }
}

} // verus!
