//! The mathematical model of parsing.
//!
//! [`SpecJson`] is the shape of a parsed document, and the `spec_parse_*`
//! functions define, production by production, what the parser returns and
//! where it leaves the cursor — including every error case and the exact
//! error position.  The executable parser in [`crate::json::object_parser`]
//! is proved to follow these functions step for step.

use vstd::prelude::*;

use crate::json::error::Error;
use crate::json::state::{is_ws_char, lemma_skip_ws, spec_skip_ws, spec_read_char, spec_read_literal};
use crate::json::value::JsonValueType;

verus! {

broadcast use vstd::std_specs::vec::group_vec_axioms;

/// A parsed document: the value model, with text as character sequences and
/// numbers kept as the literal that was scanned.
pub enum SpecJson {
    Null,
    Bool(bool),
    Num(Seq<char>),
    Str(Seq<char>),
    Arr(Seq<SpecJson>),
    Obj(Seq<(Seq<char>, SpecJson)>),
}

/// A decimal digit.
pub open spec fn is_digit(c: char) -> bool {
    c as u32 >= 48 && c as u32 <= 57
}

/// The characters the number production accumulates: digits, `-`, `e`, `E`
/// and `.` (`+` is not among them).
pub open spec fn is_number_char(c: char) -> bool {
    is_digit(c) || c == '-' || c == 'e' || c == 'E' || c == '.'
}

/// The end of the maximal run of number characters starting at `pos`.
pub open spec fn spec_scan_number(s: Seq<char>, pos: int) -> int
    decreases s.len() - pos,
{
    if pos < 0 || pos >= s.len() {
        pos
    } else if is_number_char(s[pos]) {
        spec_scan_number(s, pos + 1)
    } else {
        pos
    }
}

/// Every character of `s` from `k` to the end is a decimal digit.
pub open spec fn digits_to_end(s: Seq<char>, k: int) -> bool
    decreases s.len() - k,
{
    if k >= s.len() {
        true
    } else {
        is_digit(s[k]) && digits_to_end(s, k + 1)
    }
}

/// Every character of `s` in `[i, p)` is a digit or a dot.
pub open spec fn mantissa_chars(s: Seq<char>, i: int, p: int) -> bool
    decreases p - i,
{
    if i >= p {
        true
    } else {
        (is_digit(s[i]) || s[i] == '.') && mantissa_chars(s, i + 1, p)
    }
}

/// How many dots `s` holds in `[i, p)`.
pub open spec fn count_dots(s: Seq<char>, i: int, p: int) -> int
    decreases p - i,
{
    if i >= p {
        0
    } else {
        (if s[i] == '.' {
            1int
        } else {
            0int
        }) + count_dots(s, i + 1, p)
    }
}

/// Whether `s` holds a digit in `[i, p)`.
pub open spec fn has_digit(s: Seq<char>, i: int, p: int) -> bool
    decreases p - i,
{
    if i >= p {
        false
    } else {
        is_digit(s[i]) || has_digit(s, i + 1, p)
    }
}

/// A mantissa over `[i, p)`: digits with at most one dot anywhere among
/// them, and at least one digit.
pub open spec fn mantissa_ok(s: Seq<char>, i: int, p: int) -> bool {
    mantissa_chars(s, i, p) && count_dots(s, i, p) <= 1 && has_digit(s, i, p)
}

/// The first position at or after `k` holding `e` or `E`, or the end.
pub open spec fn first_e_at(s: Seq<char>, k: int) -> int
    decreases s.len() - k,
{
    if k >= s.len() {
        s.len() as int
    } else if s[k] == 'e' || s[k] == 'E' {
        k
    } else {
        first_e_at(s, k + 1)
    }
}

/// An exponent part starting at `j` (just past the `e`/`E`): an optional
/// `-` sign, then at least one digit, digits to the end.
pub open spec fn exp_ok(s: Seq<char>, j: int) -> bool {
    let st = if j < s.len() && s[j] == '-' {
        j + 1
    } else {
        j
    };
    st < s.len() && digits_to_end(s, st)
}

/// Whether `s` is a numeric literal that 64-bit float parsing accepts,
/// restricted to the characters the number production accumulates: an
/// optional `-` sign, then a mantissa, then an optional exponent part.
pub open spec fn valid_number(s: Seq<char>) -> bool {
    let i0: int = if s.len() > 0 && s[0] == '-' {
        1
    } else {
        0
    };
    let p = first_e_at(s, i0);
    mantissa_ok(s, i0, p) && (p == s.len() || exp_ok(s, p + 1))
}

/// Number scanning moves the position forward, never past the end, only
/// over number characters, and stops on anything else.
pub proof fn lemma_scan_number(s: Seq<char>, pos: int)
    requires
        0 <= pos <= s.len(),
    ensures
        pos <= spec_scan_number(s, pos) <= s.len(),
        forall|i: int| pos <= i < spec_scan_number(s, pos) ==> is_number_char(s[i]),
        spec_scan_number(s, pos) < s.len() ==> !is_number_char(s[spec_scan_number(s, pos)]),
    decreases s.len() - pos,
{
    if pos < s.len() && is_number_char(s[pos]) {
        lemma_scan_number(s, pos + 1);
    }
}

/// The error reported at position `p`: end-of-line past the input, else a
/// character error at `p`.
pub open spec fn spec_error_at(s: Seq<char>, p: int) -> Error {
    if p >= s.len() {
        Error::EndOfLine
    } else {
        Error::Character(p as usize)
    }
}

/// The number production: scan the maximal run of number characters from
/// `pos`; a valid literal yields that text, anything else a character error
/// at the position past the run.
pub open spec fn spec_parse_number(s: Seq<char>, pos: int) -> (Result<SpecJson, Error>, int) {
    let e = spec_scan_number(s, pos);
    let text = s.subrange(pos, e);
    if valid_number(text) {
        (Ok(SpecJson::Num(text)), e)
    } else {
        (Err(Error::Character(e as usize)), e)
    }
}

/// The string production, entered just past the opening quote, with the
/// escape flag `slash`.  Only `\\` and `\"` are decoded; for any other
/// pair the backslash is dropped and the second character kept.
pub open spec fn spec_parse_string(s: Seq<char>, pos: int, slash: bool) -> (
    Result<Seq<char>, Error>,
    int,
)
    decreases s.len() - pos,
{
    if pos < 0 || pos >= s.len() {
        (Err(Error::EndOfLine), pos)
    } else {
        let c = s[pos];
        if c == '\\' && !slash {
            spec_parse_string(s, pos + 1, true)
        } else if c == '"' && !slash {
            (Ok(Seq::empty()), pos + 1)
        } else {
            let rest = spec_parse_string(s, pos + 1, false);
            match rest.0 {
                Ok(q) => (Ok(seq![c] + q), rest.1),
                Err(e) => (Err(e), rest.1),
            }
        }
    }
}

/// The value production: skip whitespace, dispatch on the next character;
/// `t`/`f` try the two boolean literals, `n` tries `null`, brackets open the
/// container productions, a quote opens a string, and anything else falls
/// through to the number production.
pub open spec fn spec_parse_value(s: Seq<char>, pos: int) -> (Result<SpecJson, Error>, int)
    decreases s.len() - pos, 0int,
{
    let p = spec_skip_ws(s, pos);
    if p < pos || p >= s.len() {
        (Err(Error::EndOfLine), p)
    } else {
        let c = s[p];
        if c == 't' || c == 'f' {
            let rt = spec_read_literal(s, p, seq!['t', 'r', 'u', 'e']);
            if rt.0 {
                (Ok(SpecJson::Bool(true)), rt.1)
            } else {
                let rf = spec_read_literal(s, rt.1, seq!['f', 'a', 'l', 's', 'e']);
                if rf.0 {
                    (Ok(SpecJson::Bool(false)), rf.1)
                } else {
                    (Err(spec_error_at(s, rf.1)), rf.1)
                }
            }
        } else if c == 'n' {
            let rn = spec_read_literal(s, p, seq!['n', 'u', 'l', 'l']);
            if rn.0 {
                (Ok(SpecJson::Null), rn.1)
            } else {
                (Err(spec_error_at(s, rn.1)), rn.1)
            }
        } else if c == '[' {
            spec_parse_array(s, p + 1)
        } else if c == '"' {
            let rs = spec_parse_string(s, p + 1, false);
            match rs.0 {
                Ok(q) => (Ok(SpecJson::Str(q)), rs.1),
                Err(e) => (Err(e), rs.1),
            }
        } else if c == '{' {
            spec_parse_object(s, p + 1)
        } else {
            spec_parse_number(s, p)
        }
    }
}

/// The array production, entered just past the opening bracket.  The empty
/// case checks the very next character (no whitespace skip); otherwise the
/// element list is parsed.
pub open spec fn spec_parse_array(s: Seq<char>, pos: int) -> (Result<SpecJson, Error>, int)
    decreases s.len() - pos, 2int,
{
    if 0 <= pos < s.len() && s[pos] == ']' {
        (Ok(SpecJson::Arr(Seq::empty())), pos + 1)
    } else {
        let t = spec_arr_items(s, pos);
        match t.0 {
            Ok(items) => (Ok(SpecJson::Arr(items)), t.1),
            Err(e) => (Err(e), t.1),
        }
    }
}

/// One or more array elements: a value, then whitespace, then `,` to
/// continue or `]` to stop; the end of input here is an end-of-line error,
/// any other character a character error just past it.
///
/// The guards on positions that did not advance can never be taken — a
/// parsed value always consumes at least one character — and exist to make
/// the recursion visibly well-founded.
pub open spec fn spec_arr_items(s: Seq<char>, pos: int) -> (Result<Seq<SpecJson>, Error>, int)
    decreases s.len() - pos, 1int,
{
    let v = spec_parse_value(s, pos);
    match v.0 {
        Err(e) => (Err(e), v.1),
        Ok(item) => {
            if v.1 <= pos || v.1 > s.len() {
                (Err(Error::EndOfLine), v.1)
            } else {
                let p2 = spec_skip_ws(s, v.1);
                if p2 < v.1 {
                    (Err(Error::EndOfLine), p2)
                } else if p2 >= s.len() {
                    (Err(Error::EndOfLine), p2)
                } else if s[p2] == ',' {
                    let rest = spec_arr_items(s, p2 + 1);
                    match rest.0 {
                        Ok(items) => (Ok(seq![item] + items), rest.1),
                        Err(e) => (Err(e), rest.1),
                    }
                } else if s[p2] == ']' {
                    (Ok(seq![item]), p2 + 1)
                } else {
                    (Err(spec_error_at(s, p2 + 1)), p2 + 1)
                }
            }
        },
    }
}

/// The first index in `ps` holding key `k`, or `-1`.
pub open spec fn find_key(ps: Seq<(Seq<char>, SpecJson)>, k: Seq<char>) -> int
    decreases ps.len(),
{
    if ps.len() == 0 {
        -1
    } else if ps[0].0 == k {
        0
    } else {
        let r = find_key(ps.drop_first(), k);
        if r < 0 {
            -1
        } else {
            r + 1
        }
    }
}

/// Insert `k -> v` into the pair list: overwrite the entry holding `k`
/// if there is one (last write wins), else append.
pub open spec fn spec_insert(ps: Seq<(Seq<char>, SpecJson)>, k: Seq<char>, v: SpecJson) -> Seq<
    (Seq<char>, SpecJson),
> {
    let i = find_key(ps, k);
    if i >= 0 {
        ps.update(i, (k, v))
    } else {
        ps.push((k, v))
    }
}

/// Fold a list of parsed key/value pairs into a mapping, inserting from the
/// left so that a repeated key keeps its last value.
pub open spec fn fold_pairs(ps: Seq<(Seq<char>, SpecJson)>) -> Seq<(Seq<char>, SpecJson)>
    decreases ps.len(),
{
    if ps.len() == 0 {
        Seq::empty()
    } else {
        spec_insert(fold_pairs(ps.drop_last()), ps.last().0, ps.last().1)
    }
}

/// The object production, entered just past the opening brace: `}` (after
/// whitespace) closes an empty object, else the entry list is parsed and
/// folded into a mapping.
pub open spec fn spec_parse_object(s: Seq<char>, pos: int) -> (Result<SpecJson, Error>, int)
    decreases s.len() - pos, 2int,
{
    if pos < 0 || pos > s.len() {
        (Err(Error::EndOfLine), pos)
    } else {
        let cb = spec_read_char(s, pos, '}');
        if cb.0 {
            (Ok(SpecJson::Obj(Seq::empty())), cb.1)
        } else if cb.1 < pos || cb.1 > s.len() {
            (Err(Error::EndOfLine), cb.1)
        } else {
            let t = spec_obj_items(s, cb.1);
            match t.0 {
                Ok(items) => (Ok(SpecJson::Obj(fold_pairs(items))), t.1),
                Err(e) => (Err(e), t.1),
            }
        }
    }
}

/// One or more object entries: a value that must be a string (the key),
/// `:`, a value, then `}` to stop or `,` to continue.  A key that is not a
/// string, a missing `:` or delimiter, and a failed value are all reported
/// as a fresh positioned error at the position then reached — the inner
/// error of the value slot is discarded, as the object production's lossy
/// propagation demands.
///
/// As in [`spec_arr_items`], the guards on positions that did not advance
/// are never taken.
pub open spec fn spec_obj_items(s: Seq<char>, pos: int) -> (
    Result<Seq<(Seq<char>, SpecJson)>, Error>,
    int,
)
    decreases s.len() - pos, 1int,
{
    let k = spec_parse_value(s, pos);
    match k.0 {
        Ok(SpecJson::Str(key)) => {
            if k.1 <= pos || k.1 > s.len() {
                (Err(Error::EndOfLine), k.1)
            } else {
                let c = spec_read_char(s, k.1, ':');
                if !c.0 {
                    (Err(spec_error_at(s, c.1)), c.1)
                } else if c.1 <= k.1 {
                    (Err(Error::EndOfLine), c.1)
                } else {
                    let v = spec_parse_value(s, c.1);
                    match v.0 {
                        Err(_) => (Err(spec_error_at(s, v.1)), v.1),
                        Ok(item) => {
                            if v.1 <= c.1 || v.1 > s.len() {
                                (Err(Error::EndOfLine), v.1)
                            } else {
                                let cb = spec_read_char(s, v.1, '}');
                                if cb.0 {
                                    (Ok(seq![(key, item)]), cb.1)
                                } else {
                                    let cc = spec_read_char(s, cb.1, ',');
                                    if cc.0 {
                                        if cc.1 <= v.1 {
                                            (Err(Error::EndOfLine), cc.1)
                                        } else {
                                            let rest = spec_obj_items(s, cc.1);
                                            match rest.0 {
                                                Ok(more) => (Ok(seq![(key, item)] + more), rest.1),
                                                Err(e) => (Err(e), rest.1),
                                            }
                                        }
                                    } else {
                                        (Err(spec_error_at(s, cc.1)), cc.1)
                                    }
                                }
                            }
                        },
                    }
                }
            }
        },
        _ => (Err(spec_error_at(s, k.1)), k.1),
    }
}


/// The shape of an executable value: the tree with its text fields read off
/// as character sequences.
pub open spec fn view_value(v: JsonValueType) -> SpecJson
    decreases v,
{
    match v {
        JsonValueType::JsonTypeNull => SpecJson::Null,
        JsonValueType::JsonTypeBool(b) => SpecJson::Bool(b),
        JsonValueType::JsonTypeNumber(t) => SpecJson::Num(t@),
        JsonValueType::JsonTypeString(t) => SpecJson::Str(t@),
        JsonValueType::JsonTypeArray(a) => SpecJson::Arr(view_elems(a.0@)),
        JsonValueType::JsonTypeObject(o) => SpecJson::Obj(view_pairs(o.0@)),
    }
}

/// The shapes of a sequence of executable values, elementwise.
pub open spec fn view_elems(s: Seq<JsonValueType>) -> Seq<SpecJson>
    decreases s,
{
    if s.len() == 0 {
        Seq::empty()
    } else {
        seq![view_value(s[0])] + view_elems(s.drop_first())
    }
}

/// The shapes of a sequence of executable key/value entries, elementwise.
pub open spec fn view_pairs(s: Seq<(String, JsonValueType)>) -> Seq<(Seq<char>, SpecJson)>
    decreases s,
{
    if s.len() == 0 {
        Seq::empty()
    } else {
        seq![(s[0].0@, view_value(s[0].1))] + view_pairs(s.drop_first())
    }
}

/// [`view_elems`] maps elementwise: same length, same entry at each index.
pub proof fn lemma_view_elems(s: Seq<JsonValueType>)
    ensures
        view_elems(s).len() == s.len(),
        forall|i: int| 0 <= i < s.len() ==> view_elems(s)[i] == view_value(s[i]),
    decreases s.len(),
{
    if s.len() > 0 {
        lemma_view_elems(s.drop_first());
    }
}

/// [`view_pairs`] maps elementwise: same length, and each entry is the
/// key's characters paired with the value's shape.
pub proof fn lemma_view_pairs(s: Seq<(String, JsonValueType)>)
    ensures
        view_pairs(s).len() == s.len(),
        forall|i: int| 0 <= i < s.len() ==> view_pairs(s)[i] == (s[i].0@, view_value(s[i].1)),
    decreases s.len(),
{
    if s.len() > 0 {
        lemma_view_pairs(s.drop_first());
    }
}

/// What [`find_key`] returns: `-1` exactly when no entry holds `k`, else
/// the first index that does.
pub proof fn lemma_find_key(ps: Seq<(Seq<char>, SpecJson)>, k: Seq<char>)
    ensures
        find_key(ps, k) == -1 ==> forall|j: int| 0 <= j < ps.len() ==> ps[j].0 != k,
        find_key(ps, k) != -1 ==> 0 <= find_key(ps, k) < ps.len() && ps[find_key(ps, k)].0 == k
            && (forall|j: int| 0 <= j < find_key(ps, k) ==> ps[j].0 != k),
    decreases ps.len(),
{
    if ps.len() > 0 && ps[0].0 != k {
        lemma_find_key(ps.drop_first(), k);
        assert(forall|j: int|
            1 <= j < ps.len() ==> ps[j] == ps.drop_first()[j - 1]);
    }
}


/// The canonical rendering of a parsed value: JSON-like syntax, containers
/// with a newline after their closing bracket or brace, object entries as
/// `"key" : value`, numbers as their stored literal text.
pub open spec fn render(m: SpecJson) -> Seq<char>
    decreases m,
{
    match m {
        SpecJson::Null => seq!['n', 'u', 'l', 'l'],
        SpecJson::Bool(b) => if b {
            seq!['t', 'r', 'u', 'e']
        } else {
            seq!['f', 'a', 'l', 's', 'e']
        },
        SpecJson::Num(t) => t,
        SpecJson::Str(t) => seq!['"'] + t + seq!['"'],
        SpecJson::Arr(elems) => seq!['['] + render_elems(elems) + seq![']', '\n'],
        SpecJson::Obj(pairs) => seq!['{'] + render_pairs(pairs) + seq!['}', '\n'],
    }
}

/// Array elements, rendered in order and separated by `, `.
pub open spec fn render_elems(q: Seq<SpecJson>) -> Seq<char>
    decreases q,
{
    if q.len() == 0 {
        Seq::empty()
    } else if q.len() == 1 {
        render(q[0])
    } else {
        render(q[0]) + seq![',', ' '] + render_elems(q.drop_first())
    }
}

/// Object entries, rendered in order as `"key" : value`, separated by `, `.
pub open spec fn render_pairs(q: Seq<(Seq<char>, SpecJson)>) -> Seq<char>
    decreases q,
{
    if q.len() == 0 {
        Seq::empty()
    } else if q.len() == 1 {
        seq!['"'] + q[0].0 + seq!['"', ' ', ':', ' '] + render(q[0].1)
    } else {
        seq!['"'] + q[0].0 + seq!['"', ' ', ':', ' '] + render(q[0].1) + seq![',', ' ']
            + render_pairs(q.drop_first())
    }
}

/// Extending a rendered element list by one more element appends a
/// separator (except before the first) and that element's rendering.
pub proof fn lemma_render_elems_take(q: Seq<SpecJson>, k: int)
    requires
        0 <= k < q.len(),
    ensures
        render_elems(q.take(k + 1)) == render_elems(q.take(k)) + (if k == 0 {
            Seq::<char>::empty()
        } else {
            seq![',', ' ']
        }) + render(q[k]),
    decreases k,
{
    if k == 0 {
        assert(q.take(1) =~= seq![q[0]]);
        assert(q.take(0) =~= Seq::<SpecJson>::empty());
        assert(render_elems(q.take(1)) == render(q[0]));
        assert(render_elems(q.take(0)) + Seq::<char>::empty() + render(q[0]) =~= render(q[0]));
    } else {
        lemma_render_elems_take(q.drop_first(), k - 1);
        assert(q.take(k + 1).drop_first() =~= q.drop_first().take(k));
        assert(q.take(k).drop_first() =~= q.drop_first().take(k - 1));
        assert(q.drop_first()[k - 1] == q[k]);
        assert(q.take(k + 1)[0] == q[0]);
        assert(q.take(k)[0] == q[0]);
        assert(q.take(k + 1).len() == k + 1);
        assert(q.take(k).len() == k);
        assert(render_elems(q.take(k + 1)) =~= render_elems(q.take(k)) + seq![',', ' '] + render(
            q[k],
        ));
    }
}

/// Extending a rendered entry list by one more entry appends a separator
/// (except before the first) and that entry's rendering.
pub proof fn lemma_render_pairs_take(q: Seq<(Seq<char>, SpecJson)>, k: int)
    requires
        0 <= k < q.len(),
    ensures
        render_pairs(q.take(k + 1)) == render_pairs(q.take(k)) + (if k == 0 {
            Seq::<char>::empty()
        } else {
            seq![',', ' ']
        }) + (seq!['"'] + q[k].0 + seq!['"', ' ', ':', ' '] + render(q[k].1)),
    decreases k,
{
    if k == 0 {
        assert(q.take(1) =~= seq![q[0]]);
        assert(q.take(0) =~= Seq::<(Seq<char>, SpecJson)>::empty());
        assert(render_pairs(q.take(1)) == seq!['"'] + q[0].0 + seq!['"', ' ', ':', ' '] + render(
            q[0].1,
        ));
        assert(render_pairs(q.take(0)) + Seq::<char>::empty() + (seq!['"'] + q[0].0 + seq![
            '"',
            ' ',
            ':',
            ' ',
        ] + render(q[0].1)) =~= seq!['"'] + q[0].0 + seq!['"', ' ', ':', ' '] + render(q[0].1));
    } else {
        lemma_render_pairs_take(q.drop_first(), k - 1);
        assert(q.take(k + 1).drop_first() =~= q.drop_first().take(k));
        assert(q.take(k).drop_first() =~= q.drop_first().take(k - 1));
        assert(q.drop_first()[k - 1] == q[k]);
        assert(q.take(k + 1)[0] == q[0]);
        assert(q.take(k)[0] == q[0]);
        assert(q.take(k + 1).len() == k + 1);
        assert(q.take(k).len() == k);
        assert(render_pairs(q.take(k + 1)) =~= render_pairs(q.take(k)) + seq![',', ' '] + (seq![
            '"',
        ] + q[k].0 + seq!['"', ' ', ':', ' '] + render(q[k].1)));
    }
}


/// Boundary behaviour of a whole parse: an input that is empty or all
/// whitespace fails with an end-of-line error; an input whose first
/// non-whitespace character opens no production — not `t`, `f`, `n`, `[`,
/// `"` or `{`, and not a character the number production accumulates —
/// fails with a character error at that very position, through the number
/// production scanning nothing.
pub proof fn lemma_parse_boundary(s: Seq<char>)
    ensures
        spec_skip_ws(s, 0) == s.len() ==> spec_parse(s) == (
            Err::<SpecJson, Error>(Error::EndOfLine),
            s.len() as int,
        ),
        ({
            let p = spec_skip_ws(s, 0);
            (p < s.len() && s[p] != 't' && s[p] != 'f' && s[p] != 'n' && s[p] != '['
                && s[p] != '"' && s[p] != '{' && !is_number_char(s[p])) ==> spec_parse(s) == (
                Err::<SpecJson, Error>(Error::Character(p as usize)),
                p,
            )
        }),
{
    lemma_skip_ws(s, 0);
    let p = spec_skip_ws(s, 0);
    if p < s.len() && s[p] != 't' && s[p] != 'f' && s[p] != 'n' && s[p] != '[' && s[p] != '"'
        && s[p] != '{' && !is_number_char(s[p]) {
        assert(spec_scan_number(s, p) == p);
        let text = s.subrange(p, p);
        assert(text =~= Seq::<char>::empty());
        assert(!has_digit(text, 0, first_e_at(text, 0)));
        assert(!valid_number(text));
    }
}


/// How many characters a parse of `render(m)` consumes: everything except
/// the newline an array rendering carries after its closing bracket.
pub open spec fn consumed(m: SpecJson) -> int {
    render(m).len() - (if m is Arr {
        1int
    } else {
        0int
    })
}

/// A value whose rendering parses back to it: objects are excluded (their
/// rendered order need not survive the mapping), strings must hold no
/// quote or backslash (rendering does not escape), and a number's text
/// must be a valid literal (as every parsed number's is).
pub open spec fn reparsable(m: SpecJson) -> bool
    decreases m,
{
    match m {
        SpecJson::Null => true,
        SpecJson::Bool(_) => true,
        SpecJson::Num(t) => valid_number(t),
        SpecJson::Str(t) => forall|i: int| 0 <= i < t.len() ==> t[i] != '"' && t[i] != '\\',
        SpecJson::Arr(q) => forall|i: int| 0 <= i < q.len() ==> reparsable(q[i]),
        SpecJson::Obj(_) => false,
    }
}


/// A subrange equality, read pointwise.
proof fn lemma_subrange_index(s: Seq<char>, a: int, b: int, t: Seq<char>)
    requires
        0 <= a <= b <= s.len(),
        s.subrange(a, b) == t,
    ensures
        b - a == t.len(),
        forall|i: int| a <= i < b ==> s[i] == t[i - a],
{
    assert forall|i: int| a <= i < b implies s[i] == t[i - a] by {
        assert(s.subrange(a, b)[i - a] == t[i - a]);
    }
}

/// A literal found in full at `pos` matches in full.
proof fn lemma_lit_match_full(s: Seq<char>, pos: int, lit: Seq<char>)
    requires
        0 <= pos,
        pos + lit.len() <= s.len(),
        s.subrange(pos, pos + lit.len()) == lit,
    ensures
        crate::json::state::lit_match_len(s, pos, lit) == lit.len(),
    decreases lit.len(),
{
    if lit.len() > 0 {
        assert(s[pos] == lit[0]);
        assert(s.subrange(pos + 1, pos + 1 + lit.drop_first().len()) =~= lit.drop_first());
        lemma_lit_match_full(s, pos + 1, lit.drop_first());
    }
}

/// Skipping whitespace from `a` over a whitespace-only region `[a, b)`
/// stops exactly at a non-whitespace character at `b`.
proof fn lemma_skip_ws_to(s: Seq<char>, a: int, b: int)
    requires
        0 <= a <= b < s.len(),
        forall|i: int| a <= i < b ==> is_ws_char(s[i]),
        !is_ws_char(s[b]),
    ensures
        spec_skip_ws(s, a) == b,
    decreases b - a,
{
    if a < b {
        lemma_skip_ws_to(s, a + 1, b);
    }
}

/// What [`first_e_at`] returns: the first `e`/`E` at or after `k`, or the
/// end of `s`.
proof fn lemma_first_e(s: Seq<char>, k: int)
    requires
        0 <= k <= s.len(),
    ensures
        k <= first_e_at(s, k) <= s.len(),
        first_e_at(s, k) < s.len() ==> (s[first_e_at(s, k)] == 'e' || s[first_e_at(s, k)] == 'E'),
        forall|j: int| k <= j < first_e_at(s, k) ==> !(s[j] == 'e' || s[j] == 'E'),
    decreases s.len() - k,
{
    if k < s.len() && !(s[k] == 'e' || s[k] == 'E') {
        lemma_first_e(s, k + 1);
    }
}

/// A digits-to-the-end region holds digits at every position.
proof fn lemma_digits_region(s: Seq<char>, k: int)
    requires
        0 <= k,
        digits_to_end(s, k),
    ensures
        forall|j: int| k <= j < s.len() ==> is_digit(s[j]),
    decreases s.len() - k,
{
    if k < s.len() {
        lemma_digits_region(s, k + 1);
    }
}

/// A mantissa region holds digits or dots at every position.
proof fn lemma_mantissa_region(s: Seq<char>, i: int, p: int)
    requires
        mantissa_chars(s, i, p),
    ensures
        forall|j: int| i <= j < p ==> is_digit(s[j]) || s[j] == '.',
    decreases p - i,
{
    if i < p {
        lemma_mantissa_region(s, i + 1, p);
    }
}

/// A valid numeric literal is non-empty and made of number characters only.
proof fn lemma_valid_number_chars(t: Seq<char>)
    requires
        valid_number(t),
    ensures
        t.len() >= 1,
        forall|i: int| 0 <= i < t.len() ==> is_number_char(t[i]),
{
    let i0: int = if t.len() > 0 && t[0] == '-' {
        1
    } else {
        0
    };
    lemma_first_e(t, if t.len() == 0 { 0 } else { i0 });
    let p = first_e_at(t, i0);
    assert(has_digit(t, i0, p));
    assert(i0 < p);
    lemma_mantissa_region(t, i0, p);
    if p < t.len() {
        assert(exp_ok(t, p + 1));
        let st = if p + 1 < t.len() && t[p + 1] == '-' {
            p + 2
        } else {
            p + 1
        };
        lemma_digits_region(t, st);
    }
}

/// The head and tail shape of a rendering: it is non-empty, starts with a
/// non-whitespace character that is not `]`, and past the consumed part
/// only whitespace remains (an array's trailing newline).
proof fn lemma_render_head(m: SpecJson)
    requires
        reparsable(m),
    ensures
        render(m).len() >= 1,
        1 <= consumed(m) <= render(m).len(),
        !is_ws_char(render(m)[0]),
        render(m)[0] != ']',
        forall|i: int| consumed(m) <= i < render(m).len() ==> is_ws_char(render(m)[i]),
{
    match m {
        SpecJson::Num(t) => {
            lemma_valid_number_chars(t);
            assert(is_number_char(t[0]));
        },
        _ => {},
    }
}

/// Parsing at the rendering of a string body: every character is data, and
/// the quote just past it closes the string.
proof fn lemma_reparse_string(s: Seq<char>, start: int, t: Seq<char>)
    requires
        0 <= start,
        start + t.len() < s.len(),
        forall|i: int| 0 <= i < t.len() ==> t[i] != '"' && t[i] != '\\',
        s.subrange(start, start + t.len()) == t,
        s[start + t.len()] == '"',
    ensures
        spec_parse_string(s, start, false) == (Ok::<Seq<char>, Error>(t), start + t.len() + 1),
    decreases t.len(),
{
    if t.len() == 0 {
        assert(t =~= Seq::<char>::empty());
    } else {
        assert(s[start] == t[0]);
        assert(s.subrange(start + 1, start + 1 + t.drop_first().len()) =~= t.drop_first());
        lemma_reparse_string(s, start + 1, t.drop_first());
        assert(seq![t[0]] + t.drop_first() =~= t);
    }
}

/// Parsing at a rendering: after any leading whitespace, the value
/// production read off `render(m)` yields `m` back, consuming everything
/// but an array's trailing newline.
proof fn lemma_reparse_value(s: Seq<char>, pos: int, start: int, m: SpecJson)
    requires
        reparsable(m),
        0 <= pos <= start,
        start + render(m).len() <= s.len(),
        forall|i: int| pos <= i < start ==> is_ws_char(s[i]),
        s.subrange(start, start + render(m).len()) == render(m),
        m is Num ==> (start + render(m).len() == s.len() || !is_number_char(
            s[start + render(m).len()],
        )),
    ensures
        spec_parse_value(s, pos) == (Ok::<SpecJson, Error>(m), start + consumed(m)),
    decreases m,
{
    lemma_render_head(m);
    lemma_subrange_index(s, start, start + render(m).len() as int, render(m));
    assert(s[start] == render(m)[0]);
    lemma_skip_ws_to(s, pos, start);
    match m {
        SpecJson::Null => {
            assert(render(m) =~= seq!['n', 'u', 'l', 'l']);
            lemma_lit_match_full(s, start, seq!['n', 'u', 'l', 'l']);
        },
        SpecJson::Bool(b) => {
            if b {
                assert(render(m) =~= seq!['t', 'r', 'u', 'e']);
                lemma_lit_match_full(s, start, seq!['t', 'r', 'u', 'e']);
            } else {
                assert(render(m) =~= seq!['f', 'a', 'l', 's', 'e']);
                assert(crate::json::state::lit_match_len(s, start, seq!['t', 'r', 'u', 'e'])
                    == 0);
                lemma_lit_match_full(s, start, seq!['f', 'a', 'l', 's', 'e']);
            }
        },
        SpecJson::Num(t) => {
            lemma_valid_number_chars(t);
            assert(forall|i: int| start <= i < start + t.len() ==> is_number_char(s[i]));
            lemma_scan_to(s, start, start + t.len());
            assert(s.subrange(start, start + t.len()) == t);
        },
        SpecJson::Str(t) => {
            assert(render(m).len() == t.len() + 2);
            assert(forall|j: int| 0 <= j < t.len() ==> render(m)[1 + j] == t[j]);
            assert(s.subrange(start + 1, start + 1 + t.len()) =~= t);
            assert(s[start + 1 + t.len()] == render(m)[(t.len() + 1) as int]);
            lemma_reparse_string(s, start + 1, t);
        },
        SpecJson::Arr(q) => {
            let body = render_elems(q);
            if q.len() == 0 {
                assert(q =~= Seq::<SpecJson>::empty());
                assert(body =~= Seq::<char>::empty());
                assert(s[start + 1] == render(m)[1]);
                assert(render(m)[1] == ']');
            } else {
                assert(q[0] == q.index(0));
                assert(reparsable(q[0]));
                lemma_render_head(q[0]);
                assert(render_elems(q)[0] == render(q[0])[0]);
                assert(s[start + 1] == render(m)[1]);
                assert(render(m)[1] == body[0]);
                assert(s[start + 1] != ']');
                assert(forall|i: int|
                    0 <= i < body.len() ==> render(m)[1 + i] == body[i]);
                assert(s.subrange(start + 1, start + 1 + body.len()) =~= body);
                assert(s[start + 1 + body.len()] == render(m)[(1 + body.len()) as int]);
                assert(render(m)[(1 + body.len()) as int] == ']');
                lemma_reparse_items(s, start + 1, start + 1, q);
            }
        },
        SpecJson::Obj(_) => {},
    }
}

/// Parsing at a rendered element list followed by `]`: the elements come
/// back in order, and the closing bracket is consumed.
proof fn lemma_reparse_items(s: Seq<char>, pos: int, start: int, q: Seq<SpecJson>)
    requires
        q.len() > 0,
        forall|i: int| 0 <= i < q.len() ==> reparsable(q[i]),
        0 <= pos <= start,
        forall|i: int| pos <= i < start ==> is_ws_char(s[i]),
        start + render_elems(q).len() < s.len(),
        s.subrange(start, start + render_elems(q).len()) == render_elems(q),
        s[start + render_elems(q).len()] == ']',
    ensures
        spec_arr_items(s, pos) == (
            Ok::<Seq<SpecJson>, Error>(q),
            start + render_elems(q).len() + 1,
        ),
    decreases q,
{
    let body = render_elems(q);
    lemma_subrange_index(s, start, start + body.len() as int, body);
    let m0 = q[0];
    assert(reparsable(m0));
    lemma_render_head(m0);
    let l0 = render(m0).len() as int;
    if q.len() == 1 {
        assert(body == render(m0));
        assert(s.subrange(start, start + l0) =~= render(m0));
        lemma_reparse_value(s, pos, start, m0);
        let after = start + consumed(m0);
        assert(forall|i: int| after <= i < start + l0 ==> is_ws_char(s[i]));
        lemma_skip_ws_to(s, after, start + l0);
        assert(seq![m0] =~= q);
    } else {
        assert(forall|i: int| 0 <= i < l0 ==> body[i] == render(m0)[i]);
        assert(s.subrange(start, start + l0) =~= render(m0));
        assert(body[l0] == ',');
        assert(body[l0 + 1] == ' ');
        lemma_reparse_value(s, pos, start, m0);
        let after = start + consumed(m0);
        assert(forall|i: int| after <= i < start + l0 ==> is_ws_char(s[i]));
        lemma_skip_ws_to(s, after, start + l0);
        let qd = q.drop_first();
        let start2 = start + l0 + 2;
        assert(forall|i: int|
            0 <= i < render_elems(qd).len() ==> body[l0 + 2 + i] == render_elems(qd)[i]);
        assert(s.subrange(start2, start2 + render_elems(qd).len()) =~= render_elems(qd));
        assert(forall|i: int| 0 <= i < qd.len() ==> reparsable(qd[i]));
        lemma_reparse_items(s, start + l0 + 1, start2, qd);
        assert(seq![m0] + qd =~= q);
    }
}

/// Scanning a region of number characters bounded by a non-number
/// character (or the end) stops exactly at the boundary.
proof fn lemma_scan_to(s: Seq<char>, a: int, b: int)
    requires
        0 <= a <= b <= s.len(),
        forall|i: int| a <= i < b ==> is_number_char(s[i]),
        b == s.len() || !is_number_char(s[b]),
    ensures
        spec_scan_number(s, a) == b,
    decreases b - a,
{
    if a < b {
        lemma_scan_to(s, a + 1, b);
    }
}

/// Idempotent round trip: re-parsing the canonical rendering of a
/// [`reparsable`] value — one without objects, whose strings hold no quote
/// or backslash, and whose number texts are valid literals, as every
/// parsed number's is — reproduces the value exactly, consuming the whole
/// rendering but an array's trailing newline.
pub proof fn lemma_render_reparse(m: SpecJson)
    requires
        reparsable(m),
    ensures
        spec_parse(render(m)) == (Ok::<SpecJson, Error>(m), consumed(m)),
{
    let s = render(m);
    lemma_render_head(m);
    assert(s.subrange(0, s.len() as int) =~= s);
    lemma_reparse_value(s, 0, 0, m);
}


/// No two entries of a mapping share a key.
pub open spec fn unique_keys(ps: Seq<(Seq<char>, SpecJson)>) -> bool {
    forall|i: int, j: int| 0 <= i < j < ps.len() ==> ps[i].0 != ps[j].0
}

/// [`spec_insert`] keeps keys unique: it overwrites the entry that already
/// holds the key, or appends a key held by no entry.
pub proof fn lemma_insert_unique(ps: Seq<(Seq<char>, SpecJson)>, k: Seq<char>, v: SpecJson)
    requires
        unique_keys(ps),
    ensures
        unique_keys(spec_insert(ps, k, v)),
{
    lemma_find_key(ps, k);
}

/// Folding any list of parsed pairs yields a mapping with unique keys:
/// the invariant every object the parser returns enjoys.
pub proof fn lemma_fold_pairs_unique(ps: Seq<(Seq<char>, SpecJson)>)
    ensures
        unique_keys(fold_pairs(ps)),
    decreases ps.len(),
{
    if ps.len() > 0 {
        lemma_fold_pairs_unique(ps.drop_last());
        lemma_insert_unique(fold_pairs(ps.drop_last()), ps.last().0, ps.last().1);
    }
}

/// Parsing a whole text: the value production from position 0.
pub open spec fn spec_parse(s: Seq<char>) -> (Result<SpecJson, Error>, int) {
    spec_parse_value(s, 0)
}

} // verus!

