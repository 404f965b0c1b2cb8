//! The recursive-descent parser: one function per grammar production, each
//! proved to follow the corresponding `spec_parse_*` function of
//! [`crate::json::model`] exactly — same tree, same error, same final
//! cursor position.

use vstd::prelude::*;

use crate::json::{Array, Object};
use crate::json::error::Error;
use crate::json::model::{
    SpecJson, count_dots, digits_to_end, first_e_at, fold_pairs, has_digit, is_number_char,
    lemma_scan_number, mantissa_chars, spec_arr_items, spec_obj_items, spec_parse_array,
    spec_parse_number, spec_parse_object, spec_parse_string, spec_parse_value, spec_scan_number,
    valid_number, view_elems, view_value,
};
use crate::json::state::{State, lemma_skip_ws};
use crate::json::value::JsonValueType;

verus! {

broadcast use vstd::std_specs::vec::group_vec_axioms;

/// Relies on `Iterator::collect` building a `String` from `char`s: the
/// collected string holds exactly the characters of `v`, in order.
#[verifier::external_body]
fn chars_to_string(v: &Vec<char>) -> (r: String)
    ensures
        r@ == v@,
{
    v.iter().collect()
}

/// Executable test for [`is_number_char`]: the characters the number
/// production accumulates.
fn is_numeric_char(c: char) -> (r: bool)
    ensures
        r == is_number_char(c),
{
    let u = c as u32;
    (u >= 48 && u <= 57) || c == '-' || c == 'e' || c == 'E' || c == '.'
}

/// Executable test for [`valid_number`]: whether the scanned text is a
/// numeric literal that 64-bit float parsing accepts.
#[verifier::loop_isolation(false)]
fn check_number(v: &Vec<char>) -> (r: bool)
    ensures
        r == valid_number(v@),
{
    let ghost s = v@;
    let n = v.len();
    let mut i: usize = 0;
    if n > 0 && v[0] == '-' {
        i = 1;
    }
    let ghost i0: int = if s.len() > 0 && s[0] == '-' {
        1
    } else {
        0
    };
    proof {
        assert(i == i0);
    }
    // find the start of the exponent part, if any
    let mut p: usize = i;
    while p < n && !(v[p] == 'e' || v[p] == 'E')
        invariant
            i <= p <= n,
            first_e_at(s, i as int) == first_e_at(s, p as int),
        decreases n - p,
    {
        p = p + 1;
    }
    proof {
        assert(first_e_at(s, i as int) == p as int);
    }
    // the mantissa: digits and at most one dot, at least one digit
    let mut dots: usize = 0;
    let mut seen_digit = false;
    let mut k: usize = i;
    while k < p
        invariant
            i <= k <= p,
            dots <= k,
            mantissa_chars(s, i as int, p as int) == mantissa_chars(s, k as int, p as int),
            count_dots(s, i as int, p as int) == dots + count_dots(s, k as int, p as int),
            has_digit(s, i as int, p as int) == (seen_digit || has_digit(s, k as int, p as int)),
        decreases p - k,
    {
        let c = v[k];
        let u = c as u32;
        if u >= 48 && u <= 57 {
            seen_digit = true;
        } else if c == '.' {
            dots = dots + 1;
        } else {
            return false;
        }
        k = k + 1;
    }
    if dots > 1 || !seen_digit {
        return false;
    }
    if p == n {
        return true;
    }
    // the exponent part, past the `e`/`E`: optional `-`, then digits
    let mut q: usize = p + 1;
    if q < n && v[q] == '-' {
        q = q + 1;
    }
    let ghost st = q as int;
    if q >= n {
        return false;
    }
    while q < n
        invariant
            st <= q <= n,
            digits_to_end(s, st) == digits_to_end(s, q as int),
        decreases n - q,
    {
        let c = v[q];
        let u = c as u32;
        if !(u >= 48 && u <= 57) {
            return false;
        }
        q = q + 1;
    }
    true
}

/// The number production: accumulate the maximal run of number characters,
/// then accept it as a number exactly when it is a valid literal, else fail
/// at the position just past the run.
fn parse_number(state: &mut State) -> (r: Result<JsonValueType, Error>)
    requires
        old(state).wf(),
    ensures
        final(state).wf(),
        final(state).chars() == old(state).chars(),
        ({
            let out = spec_parse_number(old(state).chars(), old(state).pos());
            final(state).pos() == out.1 && (match r {
                Ok(v) => out.0 == Ok::<SpecJson, Error>(view_value(v)),
                Err(e) => out.0 == Err::<SpecJson, Error>(e),
            })
        }),
        r is Ok ==> final(state).pos() > old(state).pos(),
{
    let ghost s = old(state).chars();
    let ghost p0 = old(state).pos();
    let mut value: Vec<char> = Vec::new();
    proof {
        assert(value@ =~= s.subrange(p0, p0));
    }
    loop
        invariant_except_break
            state.wf(),
            state.chars() == s,
            0 <= p0 <= state.pos() <= s.len(),
            value@ =~= s.subrange(p0, state.pos()),
            spec_scan_number(s, p0) == spec_scan_number(s, state.pos()),
        ensures
            state.wf(),
            state.chars() == s,
            0 <= p0 <= state.pos() <= s.len(),
            value@ =~= s.subrange(p0, state.pos()),
            state.pos() == spec_scan_number(s, p0),
        decreases s.len() - state.pos(),
    {
        let go = match state.peek() {
            Some(x) => is_numeric_char(x),
            None => false,
        };
        if !go {
            break ;
        }
        let ghost before = state.pos();
        let c = match state.take() {
            Some(c) => c,
            None => {
                return Err(Error::EndOfLine);  // unreachable: peek just succeeded
            },
        };
        value.push(c);
        proof {
            assert(value@ =~= s.subrange(p0, state.pos()));
        }
    }
    let ghost e = spec_scan_number(s, p0);
    if check_number(&value) {
        let text = chars_to_string(&value);
        proof {
            lemma_scan_number(s, p0);
            assert(text@ == s.subrange(p0, e));
            // a valid literal is never empty, so the cursor advanced
            if e == p0 {
                assert(s.subrange(p0, p0) =~= Seq::<char>::empty());
                assert(!valid_number(value@));
            }
        }
        Ok(JsonValueType::JsonTypeNumber(text))
    } else {
        Err(Error::Character(state.cursor()))
    }
}

/// The string production, entered just past the opening quote.  Raw
/// characters are accumulated (whitespace is data here); `\\` and `\"` are
/// the only decoded escapes, any other backslash is dropped; the closing
/// quote ends the string, and running out of input first is an error.
#[verifier::loop_isolation(false)]
fn parse_string(state: &mut State) -> (r: Result<JsonValueType, Error>)
    requires
        old(state).wf(),
    ensures
        final(state).wf(),
        final(state).chars() == old(state).chars(),
        ({
            let out = spec_parse_string(old(state).chars(), old(state).pos(), false);
            final(state).pos() == out.1 && (match r {
                Ok(v) => out.0 is Ok && view_value(v) == SpecJson::Str(out.0->Ok_0),
                Err(e) => out.0 == Err::<Seq<char>, Error>(e),
            })
        }),
        r is Ok ==> final(state).pos() > old(state).pos(),
{
    let ghost s = old(state).chars();
    let ghost p0 = old(state).pos();
    let mut result: Vec<char> = Vec::new();
    let mut slash = false;
    loop
        invariant
            state.wf(),
            state.chars() == s,
            p0 <= state.pos() <= s.len(),
            ({
                let whole = spec_parse_string(s, p0, false);
                let rest = spec_parse_string(s, state.pos(), slash);
                (rest.0 is Ok ==> whole.0 == Ok::<Seq<char>, Error>(result@ + rest.0->Ok_0)
                    && whole.1 == rest.1) && (rest.0 is Err ==> whole.0 == rest.0 && whole.1
                    == rest.1)
            }),
        decreases s.len() - state.pos(),
    {
        let ghost pos = state.pos();
        let ghost slash0 = slash;
        let ghost acc0 = result@;
        match state.take() {
            Some(c) => {
                if c == '\\' {
                    if slash {
                        result.push('\\');
                        slash = false;
                    } else {
                        slash = true;
                    }
                } else if c == '"' {
                    if slash {
                        result.push('"');
                        slash = false;
                    } else {
                        proof {
                            assert(acc0 + Seq::<char>::empty() =~= acc0);
                        }
                        return Ok(JsonValueType::JsonTypeString(chars_to_string(&result)));
                    }
                } else {
                    slash = false;
                    result.push(c);
                }
                proof {
                    let prev = spec_parse_string(s, pos, slash0);
                    let rest = spec_parse_string(s, state.pos(), slash);
                    if rest.0 is Ok {
                        assert(prev.0 is Ok);
                        assert(result@ + rest.0->Ok_0 =~= acc0 + prev.0->Ok_0);
                    }
                }
            },
            None => {
                return Err(Error::EndOfLine);
            },
        }
    }
}

/// The value production: skip whitespace, dispatch on the lookahead
/// character, and delegate to the matching production; the two boolean
/// literals are tried in turn, so a failed `true` leaves its matched prefix
/// consumed before `false` is attempted.
#[verifier::loop_isolation(false)]
pub(crate) fn parse_value(state: &mut State) -> (r: Result<JsonValueType, Error>)
    requires
        old(state).wf(),
    ensures
        final(state).wf(),
        final(state).chars() == old(state).chars(),
        ({
            let out = spec_parse_value(old(state).chars(), old(state).pos());
            final(state).pos() == out.1 && (match r {
                Ok(v) => out.0 == Ok::<SpecJson, Error>(view_value(v)),
                Err(e) => out.0 == Err::<SpecJson, Error>(e),
            })
        }),
        r is Ok ==> final(state).pos() > old(state).pos(),
    decreases state.chars().len() - state.pos(), 0int,
{
    let ghost s = old(state).chars();
    let ghost p0 = old(state).pos();
    if state.skip_whitespace() {
        return Err(Error::EndOfLine);
    }
    proof {
        lemma_skip_ws(s, p0);
    }
    let c = match state.peek() {
        Some(c) => c,
        None => {
            return Err(Error::EndOfLine);  // unreachable: not at the end here
        },
    };
    if c == 't' || c == 'f' {
        if state.read_literal("true") {
            proof {
                reveal_strlit("true");
                assert("true"@ =~= seq!['t', 'r', 'u', 'e']);
            }
            Ok(JsonValueType::JsonTypeBool(true))
        } else if state.read_literal("false") {
            proof {
                reveal_strlit("true");
                reveal_strlit("false");
                assert("true"@ =~= seq!['t', 'r', 'u', 'e']);
                assert("false"@ =~= seq!['f', 'a', 'l', 's', 'e']);
            }
            Ok(JsonValueType::JsonTypeBool(false))
        } else {
            proof {
                reveal_strlit("true");
                reveal_strlit("false");
                assert("true"@ =~= seq!['t', 'r', 'u', 'e']);
                assert("false"@ =~= seq!['f', 'a', 'l', 's', 'e']);
            }
            Err(state.error())
        }
    } else if c == 'n' {
        if state.read_literal("null") {
            proof {
                reveal_strlit("null");
                assert("null"@ =~= seq!['n', 'u', 'l', 'l']);
            }
            Ok(JsonValueType::JsonTypeNull)
        } else {
            proof {
                reveal_strlit("null");
                assert("null"@ =~= seq!['n', 'u', 'l', 'l']);
            }
            Err(state.error())
        }
    } else if c == '[' {
        state.take();
        parse_array(state)
    } else if c == '"' {
        state.take();
        parse_string(state)
    } else if c == '{' {
        state.take();
        parse_object(state)
    } else {
        parse_number(state)
    }
}

/// The array production, entered just past the opening bracket: a `]` as
/// the very next raw character closes an empty array; otherwise elements
/// are parsed in a loop, separated by `,` and closed by `]`.
#[verifier::loop_isolation(false)]
fn parse_array(state: &mut State) -> (r: Result<JsonValueType, Error>)
    requires
        old(state).wf(),
    ensures
        final(state).wf(),
        final(state).chars() == old(state).chars(),
        ({
            let out = spec_parse_array(old(state).chars(), old(state).pos());
            final(state).pos() == out.1 && (match r {
                Ok(v) => out.0 == Ok::<SpecJson, Error>(view_value(v)),
                Err(e) => out.0 == Err::<SpecJson, Error>(e),
            })
        }),
        r is Ok ==> final(state).pos() > old(state).pos(),
    decreases state.chars().len() - state.pos(), 1int,
{
    let ghost s = old(state).chars();
    let ghost p0 = old(state).pos();
    let mut vec: Vec<JsonValueType> = Vec::new();

    // Empty Vector
    let empty = match state.peek() {
        Some(c) => c == ']',
        None => false,
    };
    if empty {
        state.take();
        proof {
            crate::json::model::lemma_view_elems(vec@);
            assert(view_elems(vec@) =~= Seq::<SpecJson>::empty());
        }
        return Ok(JsonValueType::JsonTypeArray(Array(vec)));
    }
    proof {
        if spec_arr_items(s, p0).0 is Ok {
            assert(view_elems(vec@) + spec_arr_items(s, p0).0->Ok_0 =~= spec_arr_items(
                s,
                p0,
            ).0->Ok_0);
        }
    }
    loop
        invariant
            state.wf(),
            state.chars() == s,
            p0 <= state.pos() <= s.len(),
            ({
                let whole = spec_arr_items(s, p0);
                let rest = spec_arr_items(s, state.pos());
                (rest.0 is Ok ==> whole.0 == Ok::<Seq<SpecJson>, Error>(view_elems(vec@)
                    + rest.0->Ok_0) && whole.1 == rest.1) && (rest.0 is Err ==> whole.0 == rest.0
                    && whole.1 == rest.1)
            }),
        decreases s.len() - state.pos(),
    {
        let ghost pos = state.pos();
        let ghost acc0 = vec@;
        let value = match parse_value(state) {
            Ok(v) => v,
            Err(e) => {
                return Err(e);
            },
        };
        vec.push(value);
        proof {
            crate::json::model::lemma_view_elems(acc0);
            crate::json::model::lemma_view_elems(vec@);
            assert(view_elems(vec@) =~= view_elems(acc0).push(view_value(value)));
            lemma_skip_ws(s, state.pos());
        }
        if state.skip_whitespace() {
            return Err(Error::EndOfLine);
        }
        match state.take() {
            Some(c) => {
                if c == ',' {
                    proof {
                        let rest = spec_arr_items(s, state.pos());
                        if rest.0 is Ok {
                            assert(view_elems(vec@) + rest.0->Ok_0 =~= view_elems(acc0) + (seq![
                                view_value(value),
                            ] + rest.0->Ok_0));
                        }
                    }
                } else if c == ']' {
                    proof {
                        assert(view_elems(vec@) =~= view_elems(acc0) + seq![view_value(value)]);
                    }
                    return Ok(JsonValueType::JsonTypeArray(Array(vec)));
                } else {
                    return Err(state.error());
                }
            },
            None => {
                return Err(state.error());  // unreachable: not at the end here
            },
        }
    }
}

/// The object production, entered just past the opening brace: `}` (after
/// whitespace) closes an empty object; otherwise entries — a string key,
/// `:`, a value — are parsed in a loop, inserted with last-write-wins, and
/// closed by `}` or continued by `,`.  A failed value slot is reported as a
/// fresh error at the position reached, discarding the inner error.
#[verifier::loop_isolation(false)]
fn parse_object(state: &mut State) -> (r: Result<JsonValueType, Error>)
    requires
        old(state).wf(),
    ensures
        final(state).wf(),
        final(state).chars() == old(state).chars(),
        ({
            let out = spec_parse_object(old(state).chars(), old(state).pos());
            final(state).pos() == out.1 && (match r {
                Ok(v) => out.0 == Ok::<SpecJson, Error>(view_value(v)),
                Err(e) => out.0 == Err::<SpecJson, Error>(e),
            })
        }),
        r is Ok ==> final(state).pos() > old(state).pos(),
    decreases state.chars().len() - state.pos(), 1int,
{
    let ghost s = old(state).chars();
    let ghost p0 = old(state).pos();
    let mut result = Object::new();
    proof {
        lemma_skip_ws(s, p0);
    }
    if state.read_char('}') {
        return Ok(JsonValueType::JsonTypeObject(result));
    }
    let ghost q0 = state.pos();
    let ghost mut done: Seq<(Seq<char>, SpecJson)> = Seq::empty();
    proof {
        if spec_obj_items(s, q0).0 is Ok {
            assert(done + spec_obj_items(s, q0).0->Ok_0 =~= spec_obj_items(s, q0).0->Ok_0);
        }
    }
    loop
        invariant
            state.wf(),
            state.chars() == s,
            q0 <= state.pos() <= s.len(),
            result@ == fold_pairs(done),
            ({
                let whole = spec_obj_items(s, q0);
                let rest = spec_obj_items(s, state.pos());
                (rest.0 is Ok ==> whole.0 == Ok::<Seq<(Seq<char>, SpecJson)>, Error>(done
                    + rest.0->Ok_0) && whole.1 == rest.1) && (rest.0 is Err ==> whole.0 == rest.0
                    && whole.1 == rest.1)
            }),
        decreases s.len() - state.pos(),
    {
        let ghost pos = state.pos();
        let key = parse_value(state);
        let key_string = match key {
            Ok(JsonValueType::JsonTypeString(val)) => val,
            _ => {
                return Err(state.error());
            },
        };
        proof {
            lemma_skip_ws(s, state.pos());
        }
        if !state.read_char(':') {
            return Err(state.error());
        }
        let value = match parse_value(state) {
            Ok(v) => v,
            Err(_) => {
                return Err(state.error());
            },
        };
        let ghost kview = key_string@;
        let ghost vview = view_value(value);
        let ghost done0 = done;
        result.insert(key_string, value);
        proof {
            done = done.push((kview, vview));
            assert(done.drop_last() =~= done0);
            assert(result@ == fold_pairs(done));
            lemma_skip_ws(s, state.pos());
        }
        if state.read_char('}') {
            proof {
                assert(done0 + seq![(kview, vview)] =~= done);
            }
            return Ok(JsonValueType::JsonTypeObject(result));
        }
        proof {
            lemma_skip_ws(s, state.pos());
        }
        if state.read_char(',') {
            proof {
                let rest = spec_obj_items(s, state.pos());
                if rest.0 is Ok {
                    assert(done + rest.0->Ok_0 =~= done0 + (seq![(kview, vview)] + rest.0->Ok_0));
                }
            }
        } else {
            return Err(state.error());
        }
    }
}

} // verus!
