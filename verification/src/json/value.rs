//! The value model: the tagged union a parse produces, its read-only
//! accessors, and a canonical text rendering.

use vstd::prelude::*;

use crate::json::{Array, Object};
use crate::json::model::{
    SpecJson, lemma_render_elems_take, lemma_render_pairs_take, lemma_view_elems,
    lemma_view_pairs, render, render_elems, render_pairs, view_elems, view_pairs, view_value,
};

verus! {

broadcast use vstd::std_specs::vec::group_vec_axioms;

/// One parsed term: null, a boolean, a number (kept as the literal text
/// that was scanned), a string, an array or an object.
#[derive(Debug, PartialEq)]
pub enum JsonValueType {
    JsonTypeNull,
    JsonTypeBool(bool),
    JsonTypeNumber(String),
    JsonTypeObject(Object),  // Is a vector with pairwise entries, key, value
    JsonTypeArray(Array),  // Is a vector, all entries are plain
    JsonTypeString(String),
}

impl View for JsonValueType {
    type V = SpecJson;

    open spec fn view(&self) -> SpecJson {
        view_value(*self)
    }
}

impl JsonValueType {
    /// The boolean payload, when this value is a boolean.
    pub fn as_bool(&self) -> (r: Option<bool>)
        ensures
            r == (match self@ {
                SpecJson::Bool(b) => Some(b),
                _ => None::<bool>,
            }),
    {
        match self {
            JsonValueType::JsonTypeBool(val) => Some(*val),
            _ => None,
        }
    }

    /// The text payload, when this value is a string.
    pub fn as_string(&self) -> (r: Option<&String>)
        ensures
            self@ matches SpecJson::Str(q) ==> r matches Some(t) && t@ == q,
            !(self@ matches SpecJson::Str(_)) ==> r is None,
    {
        match self {
            JsonValueType::JsonTypeString(val) => Some(val),
            _ => None,
        }
    }

    /// The literal text of the number, when this value is a number.
    pub fn as_number(&self) -> (r: Option<&String>)
        ensures
            self@ matches SpecJson::Num(q) ==> r matches Some(t) && t@ == q,
            !(self@ matches SpecJson::Num(_)) ==> r is None,
    {
        match self {
            JsonValueType::JsonTypeNumber(val) => Some(val),
            _ => None,
        }
    }

    /// Whether this value is null.
    pub fn is_null(&self) -> (r: bool)
        ensures
            r == (self@ is Null),
    {
        match self {
            JsonValueType::JsonTypeNull => true,
            _ => false,
        }
    }

    /// The element sequence, when this value is an array.
    fn as_array(&self) -> (r: Option<&Array>)
        ensures
            self@ matches SpecJson::Arr(q) ==> r matches Some(a) && a@ == q,
            !(self@ matches SpecJson::Arr(_)) ==> r is None,
    {
        match self {
            JsonValueType::JsonTypeArray(val) => Some(val),
            _ => None,
        }
    }

    /// The entry list, when this value is an object.
    fn as_object(&self) -> (r: Option<&Object>)
        ensures
            self@ matches SpecJson::Obj(q) ==> r matches Some(o) && o@ == q,
            !(self@ matches SpecJson::Obj(_)) ==> r is None,
    {
        match self {
            JsonValueType::JsonTypeObject(val) => Some(val),
            _ => None,
        }
    }

    /// How many elements or entries a container holds; `None` for a leaf.
    pub fn len(&self) -> (r: Option<usize>)
        ensures
            self@ matches SpecJson::Obj(q) ==> r matches Some(n) && n == q.len(),
            self@ matches SpecJson::Arr(q) ==> r matches Some(n) && n == q.len(),
            self@ is Null || self@ is Bool || self@ is Num || self@ is Str ==> r is None,
    {
        match self {
            JsonValueType::JsonTypeObject(vec) => Some(vec.len()),
            JsonValueType::JsonTypeArray(vec) => {
                proof {
                    crate::json::model::lemma_view_elems(vec.0@);
                }
                Some(vec.0.len())
            },
            _ => None,
        }
    }

    /// The canonical text rendering of this value, as [`render`] describes
    /// it.
    #[verifier::loop_isolation(false)]
    pub fn to_string(&self) -> (r: String)
        ensures
            r@ == render(self@),
        decreases *self,
    {
        match &self {
            JsonValueType::JsonTypeNull => {
                let r = String::from_str("null");
                proof {
                    reveal_strlit("null");
                    assert("null"@ =~= seq!['n', 'u', 'l', 'l']);
                }
                r
            },
            JsonValueType::JsonTypeBool(val) => {
                if *val {
                    let r = String::from_str("true");
                    proof {
                        reveal_strlit("true");
                        assert("true"@ =~= seq!['t', 'r', 'u', 'e']);
                    }
                    r
                } else {
                    let r = String::from_str("false");
                    proof {
                        reveal_strlit("false");
                        assert("false"@ =~= seq!['f', 'a', 'l', 's', 'e']);
                    }
                    r
                }
            },
            JsonValueType::JsonTypeNumber(val) => { val.clone() },
            JsonValueType::JsonTypeObject(val) => {
                let mut result = String::from_str("{");
                proof {
                    reveal_strlit("{");
                    reveal_strlit("\"");
                    reveal_strlit("\" : ");
                    reveal_strlit(", ");
                    reveal_strlit("}\n");
                    assert("{"@ =~= seq!['{']);
                    assert("\""@ =~= seq!['"']);
                    assert("\" : "@ =~= seq!['"', ' ', ':', ' ']);
                    assert(", "@ =~= seq![',', ' ']);
                    assert("}\n"@ =~= seq!['}', '\n']);
                    lemma_view_pairs(val.0@);
                }
                let ghost ps = view_pairs(val.0@);
                let n = val.0.len();
                proof {
                    assert(ps.take(0) =~= Seq::<(Seq<char>, SpecJson)>::empty());
                }
                let mut index: usize = 0;
                while index < n
                    invariant
                        index <= n,
                        result@ == seq!['{'] + render_pairs(ps.take(index as int)) + (if 0 < index
                            < n {
                            seq![',', ' ']
                        } else {
                            Seq::<char>::empty()
                        }),
                    decreases n - index,
                {
                    let entry = &val.0[index];
                    let part = entry.1.to_string();
                    result.append("\"");
                    result.append(entry.0.as_str());
                    result.append("\" : ");
                    result.append(part.as_str());
                    proof {
                        lemma_render_pairs_take(ps, index as int);
                        assert(ps[index as int] == (entry.0@, view_value(entry.1)));
                        assert(result@ == seq!['{'] + render_pairs(ps.take(index as int + 1)));
                    }
                    if index < n - 1 {
                        result.append(", ");
                    }
                    index = index + 1;
                }
                proof {
                    assert(ps.take(n as int) =~= ps);
                }
                result.append("}\n");
                result
            },
            JsonValueType::JsonTypeArray(val) => {
                let mut result = String::from_str("[");
                proof {
                    reveal_strlit("[");
                    reveal_strlit(", ");
                    reveal_strlit("]\n");
                    assert("["@ =~= seq!['[']);
                    assert(", "@ =~= seq![',', ' ']);
                    assert("]\n"@ =~= seq![']', '\n']);
                    lemma_view_elems(val.0@);
                }
                let ghost es = view_elems(val.0@);
                let n = val.0.len();
                proof {
                    assert(es.take(0) =~= Seq::<SpecJson>::empty());
                }
                let mut i: usize = 0;
                while i < n
                    invariant
                        i <= n,
                        result@ == seq!['['] + render_elems(es.take(i as int)),
                    decreases n - i,
                {
                    let part = val.0[i].to_string();
                    if i != 0 {
                        result.append(", ");
                    }
                    result.append(part.as_str());
                    proof {
                        lemma_render_elems_take(es, i as int);
                        assert(es[i as int] == view_value(val.0@[i as int]));
                        assert(result@ == seq!['['] + render_elems(es.take(i as int + 1)));
                    }
                    i = i + 1;
                }
                proof {
                    assert(es.take(n as int) =~= es);
                }
                result.append("]\n");
                result
            },
            JsonValueType::JsonTypeString(val) => {
                let mut result = String::from_str("\"");
                result.append(val.as_str());
                result.append("\"");
                proof {
                    reveal_strlit("\"");
                    assert("\""@ =~= seq!['"']);
                }
                result
            },
        }
    }
}

} // verus!
