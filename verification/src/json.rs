//! The JSON value type that the engine works on, and its mathematical model.

use vstd::prelude::*;

verus! {

/// A JSON value. Numbers that fit `i64` are held as `Int`; any other
/// number (too large, or fractional) is held as `Num` with its decimal
/// rendering, which the engine never inspects.
#[derive(Debug, PartialEq, Eq)]
pub enum JsonValue {
    Null,
    Bool(bool),
    Int(i64),
    Num(String),
    Str(String),
    Arr(Vec<JsonValue>),
    Obj(Vec<(String, JsonValue)>),
}

/// The mathematical model of a `JsonValue`.
#[verifier::ext_equal]
pub enum SpecJson {
    Null,
    Bool(bool),
    Int(int),
    Num(Seq<char>),
    Str(Seq<char>),
    Arr(Seq<SpecJson>),
    Obj(Seq<(Seq<char>, SpecJson)>),
}

/// The model of an executable JSON value.
pub open spec fn json_view(v: JsonValue) -> SpecJson
    decreases v,
{
    match v {
        JsonValue::Null => SpecJson::Null,
        JsonValue::Bool(b) => SpecJson::Bool(b),
        JsonValue::Int(i) => SpecJson::Int(i as int),
        JsonValue::Num(s) => SpecJson::Num(s@),
        JsonValue::Str(s) => SpecJson::Str(s@),
        JsonValue::Arr(items) => SpecJson::Arr(json_seq_view(items@)),
        JsonValue::Obj(fields) => SpecJson::Obj(json_fields_view(fields@)),
    }
}

/// The models of the elements of a JSON array.
pub open spec fn json_seq_view(s: Seq<JsonValue>) -> Seq<SpecJson>
    decreases s,
{
    Seq::new(
        s.len(),
        |i: int|
            if 0 <= i < s.len() {
                json_view(s[i])
            } else {
                SpecJson::Null
            },
    )
}

/// The models of the key/value pairs of a JSON object.
pub open spec fn json_fields_view(s: Seq<(String, JsonValue)>) -> Seq<(Seq<char>, SpecJson)>
    decreases s,
{
    Seq::new(
        s.len(),
        |i: int|
            if 0 <= i < s.len() {
                (s[i].0@, json_view(s[i].1))
            } else {
                (Seq::empty(), SpecJson::Null)
            },
    )
}

impl View for JsonValue {
    type V = SpecJson;

    #[verifier::inline]
    open spec fn view(&self) -> SpecJson {
        json_view(*self)
    }
}

impl DeepView for JsonValue {
    type V = SpecJson;

    open spec fn deep_view(&self) -> SpecJson {
        self.view()
    }
}

/// The value under `key` among `fields`: the first field with that
/// name, as in a JSON object read front to back.
pub open spec fn fields_get(fields: Seq<(Seq<char>, SpecJson)>, key: Seq<char>) -> Option<SpecJson>
    decreases fields.len(),
{
    if fields.len() == 0 {
        None
    } else if fields[0].0 == key {
        Some(fields[0].1)
    } else {
        fields_get(fields.drop_first(), key)
    }
}

/// The value under `key` when `v` is an object that has it.
pub open spec fn obj_get(v: SpecJson, key: Seq<char>) -> Option<SpecJson> {
    match v {
        SpecJson::Obj(fields) => fields_get(fields, key),
        _ => None,
    }
}

impl JsonValue {
    /// The value under `key` when this is an object that has it.
    #[verifier::loop_isolation(false)]
    pub fn get<'a>(&'a self, key: &str) -> (r: Option<&'a JsonValue>)
        ensures
            match r {
                Some(w) => obj_get(self@, key@) == Some(w@),
                None => obj_get(self@, key@) is None,
            },
    {
        match self {
            JsonValue::Obj(fields) => {
                let ghost fv = json_fields_view(fields@);
                let mut i: usize = 0;
                proof {
                    assert(fv.skip(0) =~= fv);
                }
                while i < fields.len()
                    invariant
                        i <= fields.len(),
                        fields_get(fv, key@) == fields_get(fv.skip(i as int), key@),
                    decreases fields.len() - i,
                {
                    proof {
                        assert(fv.skip(i as int)[0] == fv[i as int]);
                        assert(fv.skip(i as int).drop_first() =~= fv.skip(i as int + 1));
                    }
                    if crate::paths::str_cmp(fields[i].0.as_str(), key) == 0 {
                        return Some(&fields[i].1);
                    }
                    i = i + 1;
                }
                proof {
                    assert(fv.skip(fields@.len() as int) =~= Seq::<(Seq<char>, SpecJson)>::empty());
                }
                None
            },
            _ => None,
        }
    }

    /// The string this value holds, when it is a string.
    pub fn as_str(&self) -> (r: Option<&String>)
        ensures
            match r {
                Some(s) => self@ == SpecJson::Str(s@),
                None => !(self@ is Str),
            },
    {
        match self {
            JsonValue::Str(s) => Some(s),
            _ => None,
        }
    }

    /// Whether this value is an object.
    pub fn is_object(&self) -> (r: bool)
        ensures
            r == self@ is Obj,
    {
        match self {
            JsonValue::Obj(_) => true,
            _ => false,
        }
    }

    /// Whether this value is an array.
    pub fn is_array(&self) -> (r: bool)
        ensures
            r == self@ is Arr,
    {
        match self {
            JsonValue::Arr(_) => true,
            _ => false,
        }
    }

    /// A structural copy of the value.
    #[verifier::loop_isolation(false)]
    pub fn deep_clone(&self) -> (r: JsonValue)
        ensures
            r@ == self@,
        decreases self,
    {
        match self {
            JsonValue::Null => JsonValue::Null,
            JsonValue::Bool(b) => JsonValue::Bool(*b),
            JsonValue::Int(i) => JsonValue::Int(*i),
            JsonValue::Num(s) => JsonValue::Num(s.clone()),
            JsonValue::Str(s) => JsonValue::Str(s.clone()),
            JsonValue::Arr(items) => {
                let mut out: Vec<JsonValue> = Vec::new();
                let mut i: usize = 0;
                while i < items.len()
                    invariant
                        i <= items.len(),
                        out@.len() == i as int,
                        forall|j: int| 0 <= j < i ==> out[j]@ == items[j]@,
                    decreases items.len() - i,
                {
                    out.push(items[i].deep_clone());
                    i = i + 1;
                }
                let result = JsonValue::Arr(out);
                proof {
                    assert(json_seq_view(out@) =~= json_seq_view(items@));
                    assert(result@ =~~= self@);
                }
                result
            },
            JsonValue::Obj(fields) => {
                let mut out: Vec<(String, JsonValue)> = Vec::new();
                let mut i: usize = 0;
                while i < fields.len()
                    invariant
                        i <= fields.len(),
                        out@.len() == i as int,
                        forall|j: int| 0 <= j < i ==> out[j].0@ == fields[j].0@
                            && out[j].1@ == fields[j].1@,
                    decreases fields.len() - i,
                {
                    out.push((fields[i].0.clone(), fields[i].1.deep_clone()));
                    i = i + 1;
                }
                let result = JsonValue::Obj(out);
                proof {
                    assert(json_fields_view(out@) =~= json_fields_view(fields@));
                    assert(result@ =~~= self@);
                }
                result
            },
        }
    }
}

} // verus!
