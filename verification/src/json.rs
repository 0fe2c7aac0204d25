//! JSON documents as plain values: their mathematical form, their
//! searchable text, and member lookup.

use vstd::prelude::*;
use crate::text::{lowercase, lowercase_chars, chars_of, views};

verus! {

/// A JSON number: its text as JSON writes it, and whether it is an integer.
#[derive(Clone, Debug)]
pub struct JsonNumber {
    pub text: String,
    pub integer: bool,
}

/// A JSON value. Object members keep their order.
#[derive(Debug)]
pub enum JsonValue {
    Null,
    Bool(bool),
    Number(JsonNumber),
    String(String),
    Array(Vec<JsonValue>),
    Object(Vec<(String, JsonValue)>),
}

/// A JSON value as mathematical data.
pub enum Json {
    Null,
    Bool(bool),
    Number(Seq<char>, bool),
    Str(Seq<char>),
    Array(Seq<Json>),
    Object(Seq<(Seq<char>, Json)>),
}

/// The mathematical form of a JSON value.
pub open spec fn jv(v: JsonValue) -> Json
    decreases v, 1nat,
{
    match v {
        JsonValue::Null => Json::Null,
        JsonValue::Bool(b) => Json::Bool(b),
        JsonValue::Number(n) => Json::Number(n.text@, n.integer),
        JsonValue::String(s) => Json::Str(s@),
        JsonValue::Array(a) => {
            proof {
                broadcast use vstd::std_specs::vec::axiom_vec_decreases_to_view;
                assert(decreases_to!(a => a@));
            }
            Json::Array(jv_list(a@))
        },
        JsonValue::Object(o) => {
            proof {
                broadcast use vstd::std_specs::vec::axiom_vec_decreases_to_view;
                assert(decreases_to!(o => o@));
            }
            Json::Object(jv_members(o@))
        },
    }
}

/// The mathematical forms of a list of values.
pub open spec fn jv_list(vs: Seq<JsonValue>) -> Seq<Json>
    decreases vs, 0nat,
{
    if vs.len() == 0 {
        seq![]
    } else {
        jv_list(vs.drop_last()).push(jv(vs.last()))
    }
}

/// The mathematical forms of object members.
pub open spec fn jv_members(ms: Seq<(String, JsonValue)>) -> Seq<(Seq<char>, Json)>
    decreases ms, 0nat,
{
    if ms.len() == 0 {
        seq![]
    } else {
        jv_members(ms.drop_last()).push((ms.last().0@, jv(ms.last().1)))
    }
}

/// The text of a boolean.
pub open spec fn bool_text(b: bool) -> Seq<char> {
    if b {
        seq!['t', 'r', 'u', 'e']
    } else {
        seq!['f', 'a', 'l', 's', 'e']
    }
}

/// The scalar texts of a value in document order: booleans, numbers and
/// strings, descending into arrays and object member values.
pub open spec fn json_parts(j: Json) -> Seq<Seq<char>>
    decreases j, 1nat,
{
    match j {
        Json::Null => seq![],
        Json::Bool(b) => seq![bool_text(b)],
        Json::Number(t, _) => seq![t],
        Json::Str(s) => seq![s],
        Json::Array(a) => parts_list(a),
        Json::Object(m) => parts_members(m),
    }
}

/// The scalar texts of a list of values, in order.
pub open spec fn parts_list(a: Seq<Json>) -> Seq<Seq<char>>
    decreases a, 0nat,
{
    if a.len() == 0 {
        seq![]
    } else {
        parts_list(a.drop_last()) + json_parts(a.last())
    }
}

/// The scalar texts of the member values of an object, in order.
pub open spec fn parts_members(m: Seq<(Seq<char>, Json)>) -> Seq<Seq<char>>
    decreases m, 0nat,
{
    if m.len() == 0 {
        seq![]
    } else {
        parts_members(m.drop_last()) + json_parts(m.last().1)
    }
}

/// The texts joined with single spaces.
pub open spec fn join_spaced(parts: Seq<Seq<char>>) -> Seq<char>
    decreases parts.len(),
{
    if parts.len() == 0 {
        seq![]
    } else if parts.len() == 1 {
        parts[0]
    } else {
        join_spaced(parts.drop_last()) + seq![' '] + parts.last()
    }
}

/// The text a document is searched in: its scalar texts joined with spaces,
/// lowercased.
pub open spec fn searchable_text(j: Json) -> Seq<char> {
    lowercase(join_spaced(json_parts(j)))
}

/// The value of the first member named `key` of an object.
pub open spec fn member(m: Seq<(Seq<char>, Json)>, key: Seq<char>) -> Option<Json>
    decreases m.len(),
{
    if m.len() == 0 {
        None
    } else if m[0].0 == key {
        Some(m[0].1)
    } else {
        member(m.drop_first(), key)
    }
}

impl JsonValue {
    /// A copy of the value.
    pub fn deep_clone(&self) -> (r: JsonValue)
        ensures
            jv(r) == jv(*self),
        decreases self,
    {
        match self {
            JsonValue::Null => JsonValue::Null,
            JsonValue::Bool(b) => JsonValue::Bool(*b),
            JsonValue::Number(n) => JsonValue::Number(JsonNumber { text: n.text.clone(), integer: n.integer }),
            JsonValue::String(s) => JsonValue::String(s.clone()),
            JsonValue::Array(a) => {
                let mut out: Vec<JsonValue> = Vec::new();
                let mut i: usize = 0;
                proof {
                    assert(a@.take(0) =~= Seq::<JsonValue>::empty());
                    assert(out@ =~= Seq::<JsonValue>::empty());
                }
                while i < a.len()
                    invariant
                        i <= a.len(),
                        jv_list(out@) == jv_list(a@.take(i as int)),
                        *self == JsonValue::Array(*a),
                    decreases a.len() - i,
                {
                    proof {
                        broadcast use vstd::std_specs::vec::axiom_vec_decreases_to_view;
                        assert(decreases_to!(*self => self->Array_0));
                        assert(decreases_to!(self->Array_0 => a@));
                        assert(decreases_to!(a@ => a@[i as int]));
                    }
                    let c = a[i].deep_clone();
                    let ghost prev = out@;
                    out.push(c);
                    proof {
                        assert(out@.drop_last() =~= prev);
                        assert(a@.take(i + 1).drop_last() =~= a@.take(i as int));
                    }
                    i = i + 1;
                }
                proof {
                    assert(a@.take(a.len() as int) =~= a@);
                }
                JsonValue::Array(out)
            },
            JsonValue::Object(o) => {
                let mut out: Vec<(String, JsonValue)> = Vec::new();
                let mut i: usize = 0;
                proof {
                    assert(o@.take(0) =~= Seq::<(String, JsonValue)>::empty());
                    assert(out@ =~= Seq::<(String, JsonValue)>::empty());
                }
                while i < o.len()
                    invariant
                        i <= o.len(),
                        jv_members(out@) == jv_members(o@.take(i as int)),
                        *self == JsonValue::Object(*o),
                    decreases o.len() - i,
                {
                    proof {
                        broadcast use vstd::std_specs::vec::axiom_vec_decreases_to_view;
                        assert(decreases_to!(*self => self->Object_0));
                        assert(decreases_to!(self->Object_0 => o@));
                        assert(decreases_to!(o@ => o@[i as int]));
                        assert(decreases_to!(o@[i as int] => o@[i as int].1));
                    }
                    let c = o[i].1.deep_clone();
                    let k = o[i].0.clone();
                    let ghost prev = out@;
                    out.push((k, c));
                    proof {
                        assert(out@.drop_last() =~= prev);
                        assert(o@.take(i + 1).drop_last() =~= o@.take(i as int));
                    }
                    i = i + 1;
                }
                proof {
                    assert(o@.take(o.len() as int) =~= o@);
                }
                JsonValue::Object(out)
            },
        }
    }
}

/// The forms of the values of a list, element by element.
pub proof fn lemma_jv_list(vs: Seq<JsonValue>)
    ensures
        jv_list(vs).len() == vs.len(),
        forall|k: int| 0 <= k < vs.len() ==> #[trigger] jv_list(vs)[k] == jv(vs[k]),
    decreases vs.len(),
{
    if vs.len() > 0 {
        lemma_jv_list(vs.drop_last());
        assert forall|k: int| 0 <= k < vs.len() implies #[trigger] jv_list(vs)[k] == jv(vs[k]) by {
            if k < vs.len() - 1 {
                assert(vs.drop_last()[k] == vs[k]);
            }
        }
    }
}

/// The forms of object members, member by member.
pub proof fn lemma_jv_members(ms: Seq<(String, JsonValue)>)
    ensures
        jv_members(ms).len() == ms.len(),
        forall|k: int| 0 <= k < ms.len() ==> #[trigger] jv_members(ms)[k] == (ms[k].0@, jv(ms[k].1)),
    decreases ms.len(),
{
    if ms.len() > 0 {
        lemma_jv_members(ms.drop_last());
        assert forall|k: int| 0 <= k < ms.len() implies #[trigger] jv_members(ms)[k] == (ms[k].0@, jv(ms[k].1)) by {
            if k < ms.len() - 1 {
                assert(ms.drop_last()[k] == ms[k]);
            }
        }
    }
}

/// `member` finds the first member with the key.
pub proof fn lemma_member(m: Seq<(Seq<char>, Json)>, key: Seq<char>, k: int)
    requires
        0 <= k <= m.len(),
        forall|j: int| 0 <= j < k ==> (#[trigger] m[j]).0 != key,
    ensures
        k < m.len() && m[k].0 == key ==> member(m, key) == Some(m[k].1),
        k == m.len() ==> member(m, key) is None,
    decreases k,
{
    if k > 0 {
        let t = m.drop_first();
        assert forall|j: int| 0 <= j < k - 1 implies (#[trigger] t[j]).0 != key by {
            assert(t[j] == m[j + 1]);
        }
        lemma_member(t, key, k - 1);
        assert(m[0].0 != key);
        if k < m.len() {
            assert(t[k - 1] == m[k]);
        }
    }
}

/// Appends the scalar texts of `value` to `parts`.
pub fn collect_parts(value: &JsonValue, parts: &mut Vec<Vec<char>>)
    ensures
        views(final(parts)@) == views(old(parts)@) + json_parts(jv(*value)),
    decreases value,
{
    let ghost start = views(parts@);
    match value {
        JsonValue::Null => {
            assert(views(parts@) =~= start + json_parts(jv(*value)));
        },
        JsonValue::Bool(b) => {
            let t: Vec<char> = if *b {
                vec!['t', 'r', 'u', 'e']
            } else {
                vec!['f', 'a', 'l', 's', 'e']
            };
            proof {
                assert(t@ =~= bool_text(*b));
            }
            parts.push(t);
            assert(views(parts@) =~= start + json_parts(jv(*value)));
        },
        JsonValue::Number(n) => {
            parts.push(chars_of(n.text.as_str()));
            assert(views(parts@) =~= start + json_parts(jv(*value)));
        },
        JsonValue::String(s) => {
            parts.push(chars_of(s.as_str()));
            assert(views(parts@) =~= start + json_parts(jv(*value)));
        },
        JsonValue::Array(a) => {
            let mut i: usize = 0;
            proof {
                assert(a@.take(0) =~= Seq::<JsonValue>::empty());
                assert(views(parts@) =~= start + parts_list(jv_list(a@.take(0))));
            }
            while i < a.len()
                invariant
                    i <= a.len(),
                    *value == JsonValue::Array(*a),
                    views(parts@) == start + parts_list(jv_list(a@.take(i as int))),
                decreases a.len() - i,
            {
                proof {
                    broadcast use vstd::std_specs::vec::axiom_vec_decreases_to_view;
                    assert(decreases_to!(*value => value->Array_0));
                    assert(decreases_to!(value->Array_0 => a@));
                    assert(decreases_to!(a@ => a@[i as int]));
                }
                collect_parts(&a[i], parts);
                proof {
                    let l = jv_list(a@.take(i + 1));
                    assert(a@.take(i + 1).drop_last() =~= a@.take(i as int));
                    assert(l.drop_last() == jv_list(a@.take(i as int)));
                    assert(views(parts@) =~= start + parts_list(l));
                }
                i = i + 1;
            }
            proof {
                assert(a@.take(a.len() as int) =~= a@);
            }
        },
        JsonValue::Object(o) => {
            let mut i: usize = 0;
            proof {
                assert(o@.take(0) =~= Seq::<(String, JsonValue)>::empty());
                assert(views(parts@) =~= start + parts_members(jv_members(o@.take(0))));
            }
            while i < o.len()
                invariant
                    i <= o.len(),
                    *value == JsonValue::Object(*o),
                    views(parts@) == start + parts_members(jv_members(o@.take(i as int))),
                decreases o.len() - i,
            {
                proof {
                    broadcast use vstd::std_specs::vec::axiom_vec_decreases_to_view;
                    assert(decreases_to!(*value => value->Object_0));
                    assert(decreases_to!(value->Object_0 => o@));
                    assert(decreases_to!(o@ => o@[i as int]));
                    assert(decreases_to!(o@[i as int] => o@[i as int].1));
                }
                collect_parts(&o[i].1, parts);
                proof {
                    let l = jv_members(o@.take(i + 1));
                    assert(o@.take(i + 1).drop_last() =~= o@.take(i as int));
                    assert(l.drop_last() == jv_members(o@.take(i as int)));
                    assert(views(parts@) =~= start + parts_members(l));
                }
                i = i + 1;
            }
            proof {
                assert(o@.take(o.len() as int) =~= o@);
            }
        },
    }
}

/// The texts joined with single spaces.
pub fn join_spaced_exec(parts: &Vec<Vec<char>>) -> (r: Vec<char>)
    ensures
        r@ == join_spaced(views(parts@)),
{
    let ghost vp = views(parts@);
    let mut out: Vec<char> = Vec::new();
    let mut i: usize = 0;
    proof {
        assert(vp.take(0) =~= Seq::<Seq<char>>::empty());
    }
    while i < parts.len()
        invariant
            i <= parts.len(),
            vp == views(parts@),
            out@ == join_spaced(vp.take(i as int)),
        decreases parts.len() - i,
    {
        let ghost prev = out@;
        if i > 0 {
            out.push(' ');
        }
        crate::text::push_all(&mut out, parts[i].as_slice());
        proof {
            assert(vp.take(i + 1).drop_last() =~= vp.take(i as int));
            assert(vp[i as int] == parts@[i as int]@);
            if i == 0 {
                assert(out@ =~= vp.take(1)[0]);
            } else {
                assert(out@ =~= prev + seq![' '] + vp[i as int]);
            }
        }
        i = i + 1;
    }
    proof {
        assert(vp.take(parts.len() as int) =~= vp);
    }
    out
}

/// The text a document is searched in.
pub fn searchable_text_of(value: &JsonValue) -> (r: Vec<char>)
    ensures
        r@ == searchable_text(jv(*value)),
{
    let mut parts: Vec<Vec<char>> = Vec::new();
    proof {
        assert(views(parts@) =~= Seq::<Seq<char>>::empty());
    }
    collect_parts(value, &mut parts);
    proof {
        assert(views(parts@) =~= json_parts(jv(*value)));
    }
    let joined = join_spaced_exec(&parts);
    lowercase_chars(joined.as_slice())
}

/// The value of the first member named `key`.
pub fn get_member<'a>(m: &'a Vec<(String, JsonValue)>, key: &str) -> (r: Option<&'a JsonValue>)
    ensures
        r matches Some(v) ==> member(jv_members(m@), key@) == Some(jv(*v)),
        r is None ==> member(jv_members(m@), key@) is None,
{
    let k = chars_of(key);
    let ghost jm = jv_members(m@);
    proof {
        lemma_jv_members(m@);
    }
    let mut i: usize = 0;
    while i < m.len()
        invariant
            i <= m.len(),
            k@ == key@,
            jm == jv_members(m@),
            jm.len() == m@.len(),
            forall|j: int| 0 <= j < m@.len() ==> #[trigger] jm[j] == (m@[j].0@, jv(m@[j].1)),
            forall|j: int| 0 <= j < i ==> (#[trigger] jm[j]).0 != key@,
        decreases m.len() - i,
    {
        let name = chars_of(m[i].0.as_str());
        if crate::order::chars_equal(name.as_slice(), k.as_slice()) {
            proof {
                lemma_member(jm, key@, i as int);
            }
            return Some(&m[i].1);
        }
        i = i + 1;
    }
    proof {
        lemma_member(jm, key@, i as int);
    }
    None
}

} // verus!
