//! The JSON-like document model and its parser.
//!
//! [`to_object`] parses a complete text into a [`value::JsonValueType`]
//! tree or a positioned [`error::Error`]; its contract ties the outcome to
//! the mathematical parser in [`model`].

use vstd::prelude::*;

pub mod error;
pub mod model;
pub mod object_parser;
pub mod state;
pub mod value;

use crate::json::error::Error;
use crate::json::model::{SpecJson, spec_insert, spec_parse, view_elems, view_pairs, view_value};
use crate::json::value::JsonValueType;

verus! {

broadcast use vstd::std_specs::vec::group_vec_axioms;

/// An ordered sequence of values.
#[derive(Debug, PartialEq)]
pub struct Array(pub Vec<JsonValueType>);

/// A mapping from string keys to values; keys are unique, and a repeated
/// insertion keeps the entry's place but replaces its value.
#[derive(Debug, PartialEq)]
pub struct Object(pub Vec<(String, JsonValueType)>);

impl View for Array {
    type V = Seq<SpecJson>;

    open spec fn view(&self) -> Seq<SpecJson> {
        view_elems(self.0@)
    }
}

impl View for Object {
    type V = Seq<(Seq<char>, SpecJson)>;

    open spec fn view(&self) -> Seq<(Seq<char>, SpecJson)> {
        view_pairs(self.0@)
    }
}

impl Object {
    /// An empty mapping.
    pub fn new() -> (r: Self)
        ensures
            r@ == Seq::<(Seq<char>, SpecJson)>::empty(),
    {
        let r = Object(Vec::new());
        proof {
            assert(r@ =~= Seq::<(Seq<char>, SpecJson)>::empty());
        }
        r
    }

    /// The number of entries.
    pub fn len(&self) -> (r: usize)
        ensures
            r == self@.len(),
    {
        proof {
            crate::json::model::lemma_view_pairs(self.0@);
        }
        self.0.len()
    }

    /// Insert `key -> value`: replace the value of an entry already holding
    /// `key` (keeping its place), else append a new entry.
    pub fn insert(&mut self, key: String, value: JsonValueType)
        ensures
            final(self)@ == spec_insert(old(self)@, key@, view_value(value)),
    {
        proof {
            crate::json::model::lemma_view_pairs(self.0@);
            crate::json::model::lemma_find_key(self@, key@);
        }
        let ghost ps = self@;
        let n = self.0.len();
        let mut i: usize = 0;
        while i < n
            invariant
                n == self.0@.len(),
                ps == old(self)@,
                ps == view_pairs(self.0@),
                ps.len() == n,
                forall|j: int| 0 <= j < ps.len() ==> ps[j] == (self.0@[j].0@, view_value(
                    self.0@[j].1,
                )),
                i <= n,
                forall|j: int| 0 <= j < i ==> ps[j].0 != key@,
            decreases n - i,
        {
            if self.0[i].0 == key {
                proof {
                    assert(ps[i as int].0 == key@);
                    crate::json::model::lemma_find_key(ps, key@);
                    assert(crate::json::model::find_key(ps, key@) == i as int);
                }
                self.0.remove(i);
                self.0.insert(i, (key, value));
                proof {
                    crate::json::model::lemma_view_pairs(self.0@);
                    assert(view_pairs(self.0@) =~= ps.update(i as int, (key@, view_value(value))));
                }
                return ;
            }
            i = i + 1;
        }
        self.0.push((key, value));
        proof {
            crate::json::model::lemma_view_pairs(self.0@);
            crate::json::model::lemma_find_key(ps, key@);
            assert(view_pairs(self.0@) =~= ps.push((key@, view_value(value))));
            assert(crate::json::model::find_key(ps, key@) == -1);
        }
    }
}

/// Parse a complete text: build a fresh cursor over it and run the value
/// production.  The result — tree or positioned error — is exactly what the
/// mathematical parser [`spec_parse`] yields on the text's characters.
pub fn to_object(content: &str) -> (r: Result<JsonValueType, Error>)
    ensures
        ({
            let out = spec_parse(content@);
            match r {
                Ok(v) => out.0 == Ok::<SpecJson, Error>(view_value(v)),
                Err(e) => out.0 == Err::<SpecJson, Error>(e),
            }
        }),
{
    let mut state = state::State::new(content);
    object_parser::parse_value(&mut state)
}

} // verus!
