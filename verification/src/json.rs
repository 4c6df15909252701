//! The crate's own model of a flattened JSON leaf value.
//!
//! The flattening collaborator turns a nested document into dotted field
//! paths, each carrying a scalar or a one-level array.  Numbers are carried
//! as their canonical decimal token, which keeps their identity (`10` and
//! `10.0` stay distinct) without bringing floating point into the crate.
//! Nested arrays and objects are never inspected by any scoring rule, so
//! they are represented by opaque placeholders.

use vstd::prelude::*;

verus! {

/// An element of an array value.
pub enum JsonElem {
    Null,
    Bool(bool),
    Num(String),
    Str(String),
    /// A nested array; its contents are ignored by every scoring rule.
    Arr,
    /// A nested object; its contents are ignored by every scoring rule.
    Obj,
}

/// A flattened field value.
pub enum JsonValue {
    Null,
    Bool(bool),
    Num(String),
    Str(String),
    Arr(Vec<JsonElem>),
    /// An object value; ignored by every scoring rule.
    Obj,
}

/// The mathematical view of a [`JsonElem`].
#[verifier::ext_equal]
pub enum ElemView {
    Null,
    Bool(bool),
    Num(Seq<char>),
    Str(Seq<char>),
    Arr,
    Obj,
}

/// The mathematical view of a [`JsonValue`].
#[verifier::ext_equal]
pub enum ValueView {
    Null,
    Bool(bool),
    Num(Seq<char>),
    Str(Seq<char>),
    Arr(Seq<ElemView>),
    Obj,
}

impl View for JsonElem {
    type V = ElemView;

    open spec fn view(&self) -> ElemView {
        match self {
            JsonElem::Null => ElemView::Null,
            JsonElem::Bool(b) => ElemView::Bool(*b),
            JsonElem::Num(s) => ElemView::Num(s@),
            JsonElem::Str(s) => ElemView::Str(s@),
            JsonElem::Arr => ElemView::Arr,
            JsonElem::Obj => ElemView::Obj,
        }
    }
}

impl View for JsonValue {
    type V = ValueView;

    open spec fn view(&self) -> ValueView {
        match self {
            JsonValue::Null => ValueView::Null,
            JsonValue::Bool(b) => ValueView::Bool(*b),
            JsonValue::Num(s) => ValueView::Num(s@),
            JsonValue::Str(s) => ValueView::Str(s@),
            JsonValue::Arr(es) => ValueView::Arr(es@.map_values(|e: JsonElem| e@)),
            JsonValue::Obj => ValueView::Obj,
        }
    }
}

/// Structural equality of two array elements.
pub fn elem_eq(a: &JsonElem, b: &JsonElem) -> (r: bool)
    ensures
        r == (a@ == b@),
{
    match (a, b) {
        (JsonElem::Null, JsonElem::Null) => true,
        (JsonElem::Bool(x), JsonElem::Bool(y)) => *x == *y,
        (JsonElem::Num(x), JsonElem::Num(y)) => *x == *y,
        (JsonElem::Str(x), JsonElem::Str(y)) => *x == *y,
        (JsonElem::Arr, JsonElem::Arr) => true,
        (JsonElem::Obj, JsonElem::Obj) => true,
        _ => false,
    }
}

/// Structural equality of two field values: the identity used to
/// deduplicate observed values.
pub fn value_eq(a: &JsonValue, b: &JsonValue) -> (r: bool)
    ensures
        r == (a@ == b@),
{
    match (a, b) {
        (JsonValue::Null, JsonValue::Null) => true,
        (JsonValue::Bool(x), JsonValue::Bool(y)) => *x == *y,
        (JsonValue::Num(x), JsonValue::Num(y)) => *x == *y,
        (JsonValue::Str(x), JsonValue::Str(y)) => *x == *y,
        (JsonValue::Arr(xs), JsonValue::Arr(ys)) => {
            if xs.len() != ys.len() {
                proof {
                    assert(xs@.map_values(|e: JsonElem| e@).len() == xs@.len());
                    assert(ys@.map_values(|e: JsonElem| e@).len() == ys@.len());
                }
                false
            } else {
                let mut i: usize = 0;
                let mut same = true;
                while i < xs.len()
                    invariant
                        i <= xs.len(),
                        xs.len() == ys.len(),
                        same ==> forall|k: int| 0 <= k < i ==> xs@[k]@ == ys@[k]@,
                        !same ==> exists|k: int| 0 <= k < xs@.len() && xs@[k]@ != ys@[k]@,
                    decreases xs.len() - i,
                {
                    if !elem_eq(&xs[i], &ys[i]) {
                        same = false;
                    }
                    i = i + 1;
                }
                proof {
                    let mx = xs@.map_values(|e: JsonElem| e@);
                    let my = ys@.map_values(|e: JsonElem| e@);
                    if same {
                        assert(mx =~= my);
                    } else {
                        let k = choose|k: int| 0 <= k < xs@.len() && xs@[k]@ != ys@[k]@;
                        assert(mx[k] != my[k]);
                    }
                }
                same
            }
        },
        (JsonValue::Obj, JsonValue::Obj) => true,
        _ => false,
    }
}

/// A copy of an array element with the same view.
pub fn clone_elem(e: &JsonElem) -> (r: JsonElem)
    ensures
        r@ == e@,
{
    match e {
        JsonElem::Null => JsonElem::Null,
        JsonElem::Bool(b) => JsonElem::Bool(*b),
        JsonElem::Num(s) => JsonElem::Num(s.clone()),
        JsonElem::Str(s) => JsonElem::Str(s.clone()),
        JsonElem::Arr => JsonElem::Arr,
        JsonElem::Obj => JsonElem::Obj,
    }
}

/// A copy of a field value with the same view.
pub fn clone_value(v: &JsonValue) -> (r: JsonValue)
    ensures
        r@ == v@,
{
    match v {
        JsonValue::Null => JsonValue::Null,
        JsonValue::Bool(b) => JsonValue::Bool(*b),
        JsonValue::Num(s) => JsonValue::Num(s.clone()),
        JsonValue::Str(s) => JsonValue::Str(s.clone()),
        JsonValue::Arr(es) => {
            let mut out: Vec<JsonElem> = Vec::new();
            let mut i: usize = 0;
            while i < es.len()
                invariant
                    i <= es.len(),
                    out@.len() == i,
                    forall|k: int| 0 <= k < i ==> out@[k]@ == es@[k]@,
                decreases es.len() - i,
            {
                out.push(clone_elem(&es[i]));
                i = i + 1;
            }
            proof {
                assert(out@.map_values(|e: JsonElem| e@) =~= es@.map_values(|e: JsonElem| e@));
            }
            JsonValue::Arr(out)
        },
        JsonValue::Obj => JsonValue::Obj,
    }
}

} // verus!
