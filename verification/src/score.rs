//! The scoring engine: per-field heuristics turning an observed value
//! distribution into searchable / filterable / sortable decisions.
//!
//! Every rule is stated as a spec function over the mathematical view of the
//! data; the executable code is proved to compute exactly those functions.
//! Scores are signed integers; entropies are in the 16-bit fixed point of
//! [`crate::entropy`].

use vstd::prelude::*;
use crate::classify::{alpha_count, is_numeric_token_spec, is_path_spec, is_url_spec, is_uuid_spec,
    looks_like_id, look_like_id, matches_numeric_token, matches_path, matches_url, matches_uuid};
use crate::json::{ElemView, JsonElem, JsonValue, ValueView};
use crate::entropy::{char_entropy, counts_view, entropy_fp, entropy_of, entropy_of_counts,
    sum_nat};

verus! {

/// The number of bytes of the UTF-8 encoding of `c`.
pub open spec fn char_utf8_len(c: char) -> nat {
    if (c as u32) < 0x80 {
        1
    } else if (c as u32) < 0x800 {
        2
    } else if (c as u32) < 0x10000 {
        3
    } else {
        4
    }
}

/// The number of bytes of the UTF-8 encoding of `s`.
pub open spec fn utf8_len(s: Seq<char>) -> nat
    decreases s.len(),
{
    if s.len() == 0 {
        0
    } else {
        utf8_len(s.drop_last()) + char_utf8_len(s.last())
    }
}

pub proof fn lemma_utf8_len_ge(s: Seq<char>)
    ensures
        utf8_len(s) >= s.len(),
    decreases s.len(),
{
    if s.len() > 0 {
        lemma_utf8_len_ge(s.drop_last());
    }
}

/// Score contribution of one string occurrence with weight `w` (the count of
/// the observed value it belongs to).  Every distinct string occurrence —
/// whether a whole-field value or an array element — earns one flat
/// filterable point, independent of its count; `bare` tells a whole-field
/// string apart from an array element where only the display-only rule's
/// extra sortable penalty distinguishes them.  The triple is
/// `(searchable, filterable, sortable)`.
pub open spec fn string_scores(s: Seq<char>, w: nat, bare: bool) -> (int, int, int) {
    let wi = w as int;
    let base = if looks_like_id(s) {
        (-wi, wi, 0int)
    } else {
        let long_bytes = utf8_len(s) > 36;
        let prose = s.len() > 100 && 5 * alpha_count(s) > 4 * s.len();
        (
            wi + (if long_bytes {
                wi
            } else {
                0int
            }) + (if prose {
                2 * wi
            } else {
                0int
            }),
            if long_bytes {
                -2 * wi
            } else {
                0int
            },
            if long_bytes {
                -2 * wi
            } else {
                0int
            },
        )
    };
    let base2 = (base.0, base.1 + 1, base.2);
    let s1 = if is_url_spec(s) {
        (base2.0 - 10 * wi, base2.1 - wi, base2.2 - (if bare {
            1int
        } else {
            0int
        }))
    } else {
        base2
    };
    let s2 = if is_path_spec(s) {
        (s1.0 - 10 * wi, s1.1 - wi, s1.2 - (if bare {
            1int
        } else {
            0int
        }))
    } else {
        s1
    };
    let s3 = if is_uuid_spec(s) {
        (s2.0 - 10 * wi, s2.1 + wi, s2.2)
    } else {
        s2
    };
    if is_numeric_token_spec(s) {
        (s3.0 - 10 * wi, s3.1 + wi, s3.2 + wi)
    } else {
        s3
    }
}

/// Score contribution of the elements of an array value with count `w`:
/// numbers add one flat point to filterable, strings follow the string rule
/// (its count-scaled parts weighted by `w`, plus the flat distinct-string
/// filterable point), everything else is ignored.
pub open spec fn elem_scores(es: Seq<ElemView>, w: nat) -> (int, int, int)
    decreases es.len(),
{
    if es.len() == 0 {
        (0int, 0int, 0int)
    } else {
        let rest = elem_scores(es.drop_last(), w);
        let d = match es.last() {
            ElemView::Num(_) => (0int, 1int, 0int),
            ElemView::Str(s) => string_scores(s, w, false),
            _ => (0int, 0int, 0int),
        };
        (rest.0 + d.0, rest.1 + d.1, rest.2 + d.2)
    }
}

/// Score contribution of one observed value with count `w`.
pub open spec fn value_scores(v: ValueView, w: nat) -> (int, int, int) {
    match v {
        ValueView::Null => (0int, 0int, 0int),
        ValueView::Obj => (0int, 0int, 0int),
        ValueView::Bool(_) => (0int, w as int, w as int),
        ValueView::Num(_) => (0int, w as int, w as int),
        ValueView::Str(s) => string_scores(s, w, true),
        ValueView::Arr(es) => {
            let e = elem_scores(es, w);
            (e.0, e.1, e.2 - w)
        },
    }
}

/// The array length of `v`, zero for non-arrays.
pub open spec fn varr_len(v: ValueView) -> nat {
    match v {
        ValueView::Arr(es) => es.len(),
        _ => 0,
    }
}

proof fn lemma_string_scores_bound(s: Seq<char>, w: nat, bare: bool)
    requires
        w >= 1,
    ensures
        -(45 * (w as int)) <= string_scores(s, w, bare).0 <= 45 * (w as int),
        -(45 * (w as int)) <= string_scores(s, w, bare).1 <= 45 * (w as int),
        -(45 * (w as int)) <= string_scores(s, w, bare).2 <= 45 * (w as int),
{
}

proof fn lemma_elem_scores_bound(es: Seq<ElemView>, w: nat)
    requires
        w >= 1,
    ensures
        -(45 * (w as int) * (es.len() as int)) <= elem_scores(es, w).0 <= 45 * (w as int) * (
        es.len() as int),
        -(45 * (w as int) * (es.len() as int)) <= elem_scores(es, w).1 <= 45 * (w as int) * (
        es.len() as int),
        -(45 * (w as int) * (es.len() as int)) <= elem_scores(es, w).2 <= 45 * (w as int) * (
        es.len() as int),
    decreases es.len(),
{
    if es.len() == 0 {
    } else {
        lemma_elem_scores_bound(es.drop_last(), w);
        match es.last() {
            ElemView::Str(s) => {
                lemma_string_scores_bound(s, w, false);
            },
            _ => {},
        }
        let l = es.len() as int;
        let wi = w as int;
        assert(45 * wi * (l - 1) + 45 * wi == 45 * wi * l) by (nonlinear_arith);
    }
}

pub proof fn lemma_value_scores_bound(v: ValueView, w: nat)
    requires
        w >= 1,
    ensures
        -(46 * (w as int) * (1 + varr_len(v) as int)) <= value_scores(v, w).0 <= 46 * (w as int)
            * (1 + varr_len(v) as int),
        -(46 * (w as int) * (1 + varr_len(v) as int)) <= value_scores(v, w).1 <= 46 * (w as int)
            * (1 + varr_len(v) as int),
        -(46 * (w as int) * (1 + varr_len(v) as int)) <= value_scores(v, w).2 <= 46 * (w as int)
            * (1 + varr_len(v) as int),
{
    let wi = w as int;
    let l = varr_len(v) as int;
    match v {
        ValueView::Str(s) => {
            lemma_string_scores_bound(s, w, true);
            assert(45 * wi <= 46 * wi * (1 + l)) by (nonlinear_arith)
                requires wi >= 1 && l >= 0;
            assert(-(46 * wi * (1 + l)) <= -(45 * wi)) by (nonlinear_arith)
                requires wi >= 1 && l >= 0;
        },
        ValueView::Arr(es) => {
            lemma_elem_scores_bound(es, w);
            assert(45 * wi * l + wi <= 46 * wi * (1 + l)) by (nonlinear_arith)
                requires wi >= 1 && l >= 0;
            assert(-(46 * wi * (1 + l)) <= -(45 * wi * l) - wi) by (nonlinear_arith)
                requires wi >= 1 && l >= 0;
        },
        _ => {
            assert(wi <= 46 * wi * (1 + l)) by (nonlinear_arith)
                requires wi >= 1 && l >= 0;
            assert(-(46 * wi * (1 + l)) <= 0) by (nonlinear_arith)
                requires wi >= 1 && l >= 0;
        },
    }
}

/// The number of bytes of the UTF-8 encoding of `c`.
fn char_width(c: char) -> (r: u64)
    ensures
        r == char_utf8_len(c),
{
    let u = c as u32;
    if u < 0x80 {
        1
    } else if u < 0x800 {
        2
    } else if u < 0x10000 {
        3
    } else {
        4
    }
}

/// The number of alphabetic characters of `s`.
fn alpha_count_exec(s: &str) -> (r: usize)
    ensures
        r == alpha_count(s@),
        r <= s@.len(),
{
    let n = s.unicode_len();
    let mut alpha: usize = 0;
    let mut i: usize = 0;
    while i < n
        invariant
            i <= n,
            n == s@.len(),
            alpha == alpha_count(s@.subrange(0, i as int)),
            alpha <= i,
        decreases n - i,
    {
        let c = s.get_char(i);
        proof {
            let pre = s@.subrange(0, i as int);
            let post = s@.subrange(0, i as int + 1);
            assert(post.drop_last() =~= pre);
            assert(post.last() == c);
        }
        if crate::classify::char_is_alphabetic(c) {
            alpha = alpha + 1;
        }
        i = i + 1;
    }
    proof {
        assert(s@.subrange(0, n as int) =~= s@);
    }
    alpha
}

/// Whether the UTF-8 encoding of `s` is longer than 36 bytes.
fn byte_len_over_36(s: &str) -> (r: bool)
    ensures
        r == (utf8_len(s@) > 36),
{
    let n = s.unicode_len();
    if n > 36 {
        proof {
            lemma_utf8_len_ge(s@);
        }
        true
    } else {
        let mut bytes: u64 = 0;
        let mut i: usize = 0;
        while i < n
            invariant
                i <= n <= 36,
                n == s@.len(),
                bytes == utf8_len(s@.subrange(0, i as int)),
                bytes <= 4 * i,
            decreases n - i,
        {
            let c = s.get_char(i);
            proof {
                let pre = s@.subrange(0, i as int);
                let post = s@.subrange(0, i as int + 1);
                assert(post.drop_last() =~= pre);
                assert(post.last() == c);
            }
            bytes = bytes + char_width(c);
            i = i + 1;
        }
        proof {
            assert(s@.subrange(0, n as int) =~= s@);
        }
        bytes > 36
    }
}

/// Score contribution of one string occurrence, exactly as
/// [`string_scores`] specifies.
fn string_scores_exec(s: &str, w: u64, bare: bool) -> (r: (i128, i128, i128))
    requires
        1 <= w <= 0xFFFF_FFFF,
    ensures
        r.0 == string_scores(s@, w as nat, bare).0,
        r.1 == string_scores(s@, w as nat, bare).1,
        r.2 == string_scores(s@, w as nat, bare).2,
{
    let wi = w as i128;
    let id = look_like_id(s);
    let mut sea: i128;
    let mut fil: i128;
    let mut sor: i128;
    if id {
        sea = -wi;
        fil = wi;
        sor = 0;
    } else {
        let long_bytes = byte_len_over_36(s);
        let n = s.unicode_len();
        let alpha = alpha_count_exec(s);
        let prose = n > 100 && 5 * (alpha as u128) > 4 * (n as u128);
        sea = wi;
        fil = 0;
        sor = 0;
        if long_bytes {
            sea = sea + wi;
            fil = fil - 2 * wi;
            sor = sor - 2 * wi;
        }
        if prose {
            sea = sea + 2 * wi;
        }
    }
    fil = fil + 1;
    if matches_url(s) {
        sea = sea - 10 * wi;
        fil = fil - wi;
        if bare {
            sor = sor - 1;
        }
    }
    if matches_path(s) {
        sea = sea - 10 * wi;
        fil = fil - wi;
        if bare {
            sor = sor - 1;
        }
    }
    if matches_uuid(s) {
        sea = sea - 10 * wi;
        fil = fil + wi;
    }
    if matches_numeric_token(s) {
        sea = sea - 10 * wi;
        fil = fil + wi;
        sor = sor + wi;
    }
    (sea, fil, sor)
}

/// Score contribution of one observed value with count `w`, exactly as
/// [`value_scores`] specifies.
fn value_scores_exec(v: &JsonValue, w: u64) -> (r: (i128, i128, i128))
    requires
        1 <= w <= 0xFFFF_FFFF,
        varr_len(v@) <= 0xFFFF_FFFF,
    ensures
        r.0 == value_scores(v@, w as nat).0,
        r.1 == value_scores(v@, w as nat).1,
        r.2 == value_scores(v@, w as nat).2,
{
    match v {
        JsonValue::Null => (0, 0, 0),
        JsonValue::Obj => (0, 0, 0),
        JsonValue::Bool(_) => (0, w as i128, w as i128),
        JsonValue::Num(_) => (0, w as i128, w as i128),
        JsonValue::Str(s) => string_scores_exec(s.as_str(), w, true),
        JsonValue::Arr(es) => {
            let ghost esv = es@.map_values(|e: JsonElem| e@);
            let mut sea: i128 = 0;
            let mut fil: i128 = 0;
            let mut sor: i128 = 0;
            let mut i: usize = 0;
            while i < es.len()
                invariant
                    i <= es.len(),
                    es@.len() <= 0xFFFF_FFFF,
                    1 <= w <= 0xFFFF_FFFF,
                    esv == es@.map_values(|e: JsonElem| e@),
                    esv.len() == es@.len(),
                    sea == elem_scores(esv.subrange(0, i as int), w as nat).0,
                    fil == elem_scores(esv.subrange(0, i as int), w as nat).1,
                    sor == elem_scores(esv.subrange(0, i as int), w as nat).2,
                    -(45 * (w as int) * (i as int)) <= sea <= 45 * (w as int) * (i as int),
                    -(45 * (w as int) * (i as int)) <= fil <= 45 * (w as int) * (i as int),
                    -(45 * (w as int) * (i as int)) <= sor <= 45 * (w as int) * (i as int),
                decreases es.len() - i,
            {
                let ghost pre = esv.subrange(0, i as int);
                let ghost post = esv.subrange(0, i as int + 1);
                proof {
                    assert(post.drop_last() =~= pre);
                    assert(post.last() == esv[i as int]);
                    match esv[i as int] {
                        ElemView::Str(str_s) => {
                            lemma_string_scores_bound(str_s, w as nat, false);
                        },
                        _ => {},
                    }
                    assert(45 * (w as int) * (i as int) + 45 * (w as int) == 45 * (w as int) * (
                    i as int + 1)) by (nonlinear_arith);
                    assert(45 * (w as int) * (i as int) <= 45 * (w as int) * (0xFFFF_FFFF as int))
                        by (nonlinear_arith)
                        requires 0 <= i as int <= 0xFFFF_FFFF && w >= 1;
                }
                let d: (i128, i128, i128) = match &es[i] {
                    JsonElem::Num(_) => (0, 1, 0),
                    JsonElem::Str(str_s) => string_scores_exec(str_s.as_str(), w, false),
                    _ => (0, 0, 0),
                };
                proof {
                    assert(-(45 * (w as int)) <= d.0 <= 45 * (w as int));
                    assert(-(45 * (w as int)) <= d.1 <= 45 * (w as int));
                    assert(-(45 * (w as int)) <= d.2 <= 45 * (w as int));
                    assert(45 * (w as int) * (i as int + 1) <= 45 * 0x1_0000_0000
                        * 0x1_0000_0000) by (nonlinear_arith)
                        requires 1 <= w as int <= 0x1_0000_0000 && 0 <= i as int + 1 <= 0x1_0000_0000;
                    assert(0 <= 45 * (w as int) * (i as int) <= 45 * 0x1_0000_0000
                        * 0x1_0000_0000) by (nonlinear_arith)
                        requires 1 <= w as int <= 0x1_0000_0000 && 0 <= i as int <= 0x1_0000_0000;
                    assert(45 * (w as int) * (i as int) + 45 * (w as int) == 45 * (w as int) * (
                    i as int + 1)) by (nonlinear_arith);
                }
                sea = sea + d.0;
                fil = fil + d.1;
                sor = sor + d.2;
                i = i + 1;
            }
            proof {
                assert(esv.subrange(0, esv.len() as int) =~= esv);
                assert(45 * (w as int) * (es@.len() as int) <= 45 * 0x1_0000_0000
                    * 0x1_0000_0000) by (nonlinear_arith)
                    requires 1 <= w as int <= 0x1_0000_0000 && 0 <= es@.len() as int <= 0x1_0000_0000;
            }
            (sea, fil, sor - w as i128)
        },
    }
}


/// One deduplicated value observed for a field: the value itself, how many
/// times it was pushed, and its entropy, computed once at first insertion.
pub struct ObservedValue {
    pub value: JsonValue,
    pub count: u64,
    pub entropy: u64,
}

/// The mathematical view of an [`ObservedValue`].
#[verifier::ext_equal]
pub struct ObservedView {
    pub value: ValueView,
    pub count: nat,
    pub entropy: nat,
}

impl View for ObservedValue {
    type V = ObservedView;

    open spec fn view(&self) -> ObservedView {
        ObservedView { value: self.value@, count: self.count as nat, entropy: self.entropy as nat }
    }
}

/// The view of a sequence of observed values.
pub open spec fn ovs_view(s: Seq<ObservedValue>) -> Seq<ObservedView> {
    s.map_values(|o: ObservedValue| o@)
}

/// The mathematical view of one field under accumulation: its path and its
/// deduplicated observed values, in first-seen order.
#[verifier::ext_equal]
pub struct FieldView {
    pub name: Seq<char>,
    pub values: Seq<ObservedView>,
}

/// The total occurrence count of a field: the sum of all value counts.
pub open spec fn field_total(vals: Seq<ObservedView>) -> nat
    decreases vals.len(),
{
    if vals.len() == 0 {
        0
    } else {
        field_total(vals.drop_last()) + vals.last().count
    }
}

/// The summed per-value score contributions of a field.
pub open spec fn raw_scores(vals: Seq<ObservedView>) -> (int, int, int)
    decreases vals.len(),
{
    if vals.len() == 0 {
        (0int, 0int, 0int)
    } else {
        let r = raw_scores(vals.drop_last());
        let d = value_scores(vals.last().value, vals.last().count);
        (r.0 + d.0, r.1 + d.1, r.2 + d.2)
    }
}

/// The string contents of the string elements of an array, in order.
pub open spec fn str_elems(es: Seq<ElemView>) -> Seq<Seq<char>>
    decreases es.len(),
{
    if es.len() == 0 {
        Seq::empty()
    } else {
        str_elems(es.drop_last()) + match es.last() {
            ElemView::Str(s) => seq![s],
            _ => Seq::<Seq<char>>::empty(),
        }
    }
}

/// The string occurrences a value contributes to the field's frequency
/// table: a bare string contributes itself, an array contributes its string
/// elements, anything else contributes nothing.
pub open spec fn strings_of(v: ValueView) -> Seq<Seq<char>> {
    match v {
        ValueView::Str(s) => seq![s],
        ValueView::Arr(es) => str_elems(es),
        _ => Seq::empty(),
    }
}

/// All string occurrences of a field, one per distinct value.
pub open spec fn all_strings(vals: Seq<ObservedView>) -> Seq<Seq<char>>
    decreases vals.len(),
{
    if vals.len() == 0 {
        Seq::empty()
    } else {
        all_strings(vals.drop_last()) + strings_of(vals.last().value)
    }
}

/// The index of the first table entry keyed by `s`, or `-1`.
pub open spec fn tbl_find(t: Seq<(Seq<char>, nat)>, s: Seq<char>) -> int
    decreases t.len(),
{
    if t.len() == 0 {
        -1
    } else if t[0].0 == s {
        0
    } else {
        let r = tbl_find(t.skip(1), s);
        if r < 0 {
            -1
        } else {
            r + 1
        }
    }
}

proof fn lemma_tbl_find_char(t: Seq<(Seq<char>, nat)>, s: Seq<char>)
    ensures
        tbl_find(t, s) == -1 ==> forall|i: int| 0 <= i < t.len() ==> t[i].0 != s,
        tbl_find(t, s) >= 0 ==> 0 <= tbl_find(t, s) < t.len() && t[tbl_find(t, s)].0 == s && (
        forall|i: int| 0 <= i < tbl_find(t, s) ==> t[i].0 != s),
    decreases t.len(),
{
    if t.len() == 0 {
    } else if t[0].0 == s {
    } else {
        let ts = t.skip(1);
        lemma_tbl_find_char(ts, s);
        assert(forall|i: int| 0 <= i < ts.len() ==> ts[i] == t[i + 1]);
        let rp = tbl_find(ts, s);
        if rp < 0 {
            assert forall|i: int| 0 <= i < t.len() implies t[i].0 != s by {
                if i > 0 {
                    assert(ts[i - 1] == t[i]);
                }
            };
        } else {
            let r = tbl_find(t, s);
            assert(r == rp + 1);
            assert(t[r].0 == ts[rp].0);
            assert forall|i: int| 0 <= i < r implies t[i].0 != s by {
                if i > 0 {
                    assert(ts[i - 1] == t[i]);
                }
            };
        }
    }
}

/// The table after recording one occurrence of `s`.
pub open spec fn tbl_add(t: Seq<(Seq<char>, nat)>, s: Seq<char>) -> Seq<(Seq<char>, nat)> {
    let r = tbl_find(t, s);
    if r >= 0 {
        t.update(r, (t[r].0, (t[r].1 + 1) as nat))
    } else {
        t.push((s, 1nat))
    }
}

/// The frequency table of a sequence of string occurrences, keyed in order
/// of first occurrence.
pub open spec fn build_table(ss: Seq<Seq<char>>) -> Seq<(Seq<char>, nat)>
    decreases ss.len(),
{
    if ss.len() == 0 {
        Seq::empty()
    } else {
        tbl_add(build_table(ss.drop_last()), ss.last())
    }
}

/// The per-field string frequency table.
pub open spec fn field_table(vals: Seq<ObservedView>) -> Seq<(Seq<char>, nat)> {
    build_table(all_strings(vals))
}

/// The counts column of a frequency table.
pub open spec fn table_counts(t: Seq<(Seq<char>, nat)>) -> Seq<nat> {
    t.map_values(|p: (Seq<char>, nat)| p.1)
}

/// The concatenation of the distinct strings of a table, in table order.
pub open spec fn concat_keys(t: Seq<(Seq<char>, nat)>) -> Seq<char>
    decreases t.len(),
{
    if t.len() == 0 {
        Seq::empty()
    } else {
        concat_keys(t.drop_last()) + t.last().0
    }
}

/// The sum of the stored entropies of a field's values (values with zero
/// entropy contribute nothing).
pub open spec fn intra_sum(vals: Seq<ObservedView>) -> nat
    decreases vals.len(),
{
    if vals.len() == 0 {
        0
    } else {
        intra_sum(vals.drop_last()) + vals.last().entropy
    }
}

/// How many values of a field carry a positive entropy.
pub open spec fn intra_cnt(vals: Seq<ObservedView>) -> nat
    decreases vals.len(),
{
    if vals.len() == 0 {
        0
    } else {
        intra_cnt(vals.drop_last()) + if vals.last().entropy > 0 {
            1nat
        } else {
            0nat
        }
    }
}

/// Average intra-value entropy: the mean of the positive stored entropies.
pub open spec fn e_intra(vals: Seq<ObservedView>) -> nat {
    if intra_cnt(vals) == 0 {
        0
    } else {
        intra_sum(vals) / intra_cnt(vals)
    }
}

/// Value-distribution entropy of the field's string frequency table.
pub open spec fn e_dist(vals: Seq<ObservedView>) -> nat {
    entropy_fp(table_counts(field_table(vals)))
}

/// Concatenated-alphabet entropy: character entropy of the concatenation of
/// the field's distinct strings.
pub open spec fn e_cat(vals: Seq<ObservedView>) -> nat {
    char_entropy(concat_keys(field_table(vals)))
}

/// The field name starts with `id_` or ends with `_id`.
pub open spec fn id_strict(name: Seq<char>) -> bool {
    (name.len() >= 3 && name[0] == 'i' && name[1] == 'd' && name[2] == '_') || (name.len() >= 3
        && name[name.len() - 3] == '_' && name[name.len() - 2] == 'i' && name[name.len() - 1]
        == 'd')
}

/// The field name starts or ends with `id`.
pub open spec fn id_loose(name: Seq<char>) -> bool {
    (name.len() >= 2 && name[0] == 'i' && name[1] == 'd') || (name.len() >= 2
        && name[name.len() - 2] == 'i' && name[name.len() - 1] == 'd')
}

/// The field-name heuristic: both patterns are tested independently and
/// their nudges stack.
pub open spec fn name_adjust(sc: (int, int, int), name: Seq<char>, u: int) -> (int, int, int) {
    let s1 = if id_strict(name) {
        (sc.0 - 5 * u, sc.1 + u, sc.2)
    } else {
        sc
    };
    if id_loose(name) {
        (s1.0 - u, s1.1 + u, s1.2)
    } else {
        s1
    }
}

/// The six entropy threshold tests, in 16-bit fixed point.  The first three
/// reward a medium-entropy field with a searchable nudge, the last three
/// reward a low-entropy field with filterable and sortable nudges; every
/// failed test costs searchable one nudge.
/// One medium-entropy test: on a match the field leans searchable, on a
/// miss searchable pays one nudge.
pub open spec fn step_search(sc: (int, int, int), u: int, cond: bool) -> (int, int, int) {
    if cond {
        (sc.0 + u, sc.1 - u, sc.2 - u)
    } else {
        (sc.0 - u, sc.1, sc.2)
    }
}

/// One low-entropy test: on a match the field leans filterable and
/// sortable, on a miss searchable pays one nudge.
pub open spec fn step_filter(sc: (int, int, int), u: int, cond: bool) -> (int, int, int) {
    if cond {
        (sc.0, sc.1 + u, sc.2 + u)
    } else {
        (sc.0 - u, sc.1, sc.2)
    }
}

pub open spec fn apply_tests(sc: (int, int, int), u: int, ec: nat, ei: nat, ed: nat) -> (
    int,
    int,
    int,
) {
    let a = step_search(sc, u, 262144 <= ec < 360448);
    let b = step_search(a, u, 196608 <= ei < 262144);
    let c = step_search(b, u, 786432 <= ed < 1310720);
    let d = step_filter(c, u, ec < 317850);
    let e = step_filter(d, u, ei < 186778);
    step_filter(e, u, ed < 851968)
}

/// The final three scores of a field.
pub open spec fn field_scores(name: Seq<char>, vals: Seq<ObservedView>) -> (int, int, int) {
    let u = (field_total(vals) / 20) as int;
    apply_tests(
        name_adjust(raw_scores(vals), name, u),
        u,
        e_cat(vals),
        e_intra(vals),
        e_dist(vals),
    )
}

/// Which settings a field earns: a capability is granted when its score
/// strictly exceeds 80% of the field's total count.  A field with no
/// occurrences earns nothing.
pub open spec fn field_settings(name: Seq<char>, vals: Seq<ObservedView>) -> (bool, bool, bool) {
    let total = field_total(vals) as int;
    if total == 0 {
        (false, false, false)
    } else {
        let sc = field_scores(name, vals);
        (5 * sc.0 > 4 * total, 5 * sc.1 > 4 * total, 5 * sc.2 > 4 * total)
    }
}

proof fn lemma_field_prefix(vals: Seq<ObservedView>, i: int)
    requires
        0 <= i < vals.len(),
    ensures
        field_total(vals.subrange(0, i + 1)) == field_total(vals.subrange(0, i)) + vals[i].count,
        raw_scores(vals.subrange(0, i + 1)).0 == raw_scores(vals.subrange(0, i)).0 + value_scores(
            vals[i].value,
            vals[i].count,
        ).0,
        raw_scores(vals.subrange(0, i + 1)).1 == raw_scores(vals.subrange(0, i)).1 + value_scores(
            vals[i].value,
            vals[i].count,
        ).1,
        raw_scores(vals.subrange(0, i + 1)).2 == raw_scores(vals.subrange(0, i)).2 + value_scores(
            vals[i].value,
            vals[i].count,
        ).2,
        all_strings(vals.subrange(0, i + 1)) == all_strings(vals.subrange(0, i)) + strings_of(
            vals[i].value,
        ),
        intra_sum(vals.subrange(0, i + 1)) == intra_sum(vals.subrange(0, i)) + vals[i].entropy,
        intra_cnt(vals.subrange(0, i + 1)) == intra_cnt(vals.subrange(0, i)) + (if vals[i].entropy
            > 0 {
            1nat
        } else {
            0nat
        }),
{
    let a = vals.subrange(0, i + 1);
    assert(a.drop_last() =~= vals.subrange(0, i));
    assert(a.last() == vals[i]);
}

pub proof fn lemma_field_total_le(vals: Seq<ObservedView>, i: int)
    requires
        0 <= i <= vals.len(),
    ensures
        field_total(vals.subrange(0, i)) <= field_total(vals),
    decreases vals.len() - i,
{
    if i == vals.len() {
        assert(vals.subrange(0, i) =~= vals);
    } else {
        lemma_field_prefix(vals, i);
        lemma_field_total_le(vals, i + 1);
    }
}

/// The index of the first occurrence of `s` among `keys`, if any.
fn find_string(keys: &Vec<String>, s: &String) -> (r: Option<usize>)
    ensures
        match r {
            Some(j) => j < keys@.len() && keys@[j as int]@ == s@ && (forall|k: int|
                0 <= k < j ==> keys@[k]@ != s@),
            None => forall|k: int| 0 <= k < keys@.len() ==> keys@[k]@ != s@,
        },
{
    let mut j: usize = 0;
    let mut res: Option<usize> = None;
    while j < keys.len()
        invariant
            j <= keys.len(),
            match res {
                Some(jj) => jj < keys@.len() && keys@[jj as int]@ == s@ && (forall|k: int|
                    0 <= k < jj ==> keys@[k]@ != s@),
                None => forall|k: int| 0 <= k < j ==> keys@[k]@ != s@,
            },
        decreases keys.len() - j,
    {
        if res.is_none() && keys[j] == *s {
            res = Some(j);
        }
        j = j + 1;
    }
    res
}

/// The view of the two-column frequency table.
pub open spec fn tbl_view(keys: Seq<String>, cnts: Seq<u64>) -> Seq<(Seq<char>, nat)> {
    Seq::new(keys.len(), |i: int| (keys[i]@, cnts[i] as nat))
}

/// The total occurrence count of a field, exactly as [`field_total`]
/// specifies.
#[verifier::loop_isolation(false)]
fn compute_total(values: &Vec<ObservedValue>) -> (total: u64)
    requires
        field_total(ovs_view(values@)) <= 0xFFFF_FFFF,
    ensures
        total == field_total(ovs_view(values@)),
{
    let ghost vals = ovs_view(values@);
    let n = values.len();
    let mut total: u64 = 0;
    let mut i: usize = 0;
    while i < n
        invariant
            i <= n,
            n == values@.len(),
            vals == ovs_view(values@),
            vals.len() == n,
            field_total(vals) <= 0xFFFF_FFFF,
            total == field_total(vals.subrange(0, i as int)),
        decreases n - i,
    {
        proof {
            lemma_field_prefix(vals, i as int);
            lemma_field_total_le(vals, i as int + 1);
        }
        total = total + values[i].count;
        i = i + 1;
    }
    proof {
        assert(vals.subrange(0, vals.len() as int) =~= vals);
    }
    total
}

/// The raw summed scores of a field, exactly as [`raw_scores`] specifies.
#[verifier::loop_isolation(false)]
#[verifier::rlimit(60)]
fn compute_raw(values: &Vec<ObservedValue>) -> (r: (i128, i128, i128))
    requires
        values@.len() <= 0xFFFF_FFFF,
        forall|k: int|
            0 <= k < values@.len() ==> 1 <= #[trigger] values@[k].count <= 0xFFFF_FFFF,
        forall|k: int| 0 <= k < values@.len() ==> varr_len(#[trigger] values@[k]@.value)
            <= 0xFFFF_FFFF,
    ensures
        r.0 == raw_scores(ovs_view(values@)).0,
        r.1 == raw_scores(ovs_view(values@)).1,
        r.2 == raw_scores(ovs_view(values@)).2,
        -(46 * 0x1_0000_0000_0000_0000 * 0x1_0000_0000) <= r.0 <= 46 * 0x1_0000_0000_0000_0000
            * 0x1_0000_0000,
        -(46 * 0x1_0000_0000_0000_0000 * 0x1_0000_0000) <= r.1 <= 46 * 0x1_0000_0000_0000_0000
            * 0x1_0000_0000,
        -(46 * 0x1_0000_0000_0000_0000 * 0x1_0000_0000) <= r.2 <= 46 * 0x1_0000_0000_0000_0000
            * 0x1_0000_0000,
{
    let ghost vals = ovs_view(values@);
    let n = values.len();
    let mut sea: i128 = 0;
    let mut fil: i128 = 0;
    let mut sor: i128 = 0;
    let mut i: usize = 0;
    while i < n
        invariant
            i <= n,
            n == values@.len(),
            vals == ovs_view(values@),
            vals.len() == n,
            n <= 0xFFFF_FFFF,
            forall|k: int|
                0 <= k < values@.len() ==> 1 <= #[trigger] values@[k].count <= 0xFFFF_FFFF,
            forall|k: int| 0 <= k < values@.len() ==> varr_len(#[trigger] values@[k]@.value)
                <= 0xFFFF_FFFF,
            sea == raw_scores(vals.subrange(0, i as int)).0,
            fil == raw_scores(vals.subrange(0, i as int)).1,
            sor == raw_scores(vals.subrange(0, i as int)).2,
            -(46 * 0x1_0000_0000_0000_0000 * (i as int)) <= sea <= 46 * 0x1_0000_0000_0000_0000 * (
            i as int),
            -(46 * 0x1_0000_0000_0000_0000 * (i as int)) <= fil <= 46 * 0x1_0000_0000_0000_0000 * (
            i as int),
            -(46 * 0x1_0000_0000_0000_0000 * (i as int)) <= sor <= 46 * 0x1_0000_0000_0000_0000 * (
            i as int),
        decreases n - i,
    {
        proof {
            lemma_field_prefix(vals, i as int);
            assert(vals[i as int] == values@[i as int]@);
            lemma_value_scores_bound(vals[i as int].value, vals[i as int].count);
            assert(46 * (vals[i as int].count as int) * (1 + varr_len(vals[i as int].value) as int)
                <= 46 * 0x1_0000_0000_0000_0000) by (nonlinear_arith)
                requires
                    1 <= vals[i as int].count as int <= 0x1_0000_0000,
                    0 <= varr_len(vals[i as int].value) as int <= 0xFFFF_FFFF;
        }
        let d = value_scores_exec(&values[i].value, values[i].count);
        proof {
            assert(vals[i as int].value == values@[i as int]@.value);
            assert(vals[i as int].count == values@[i as int].count as nat);
            assert(d.0 == value_scores(vals[i as int].value, vals[i as int].count).0);
            assert(-(46 * 0x1_0000_0000_0000_0000) <= d.0 <= 46 * 0x1_0000_0000_0000_0000);
            assert(-(46 * 0x1_0000_0000_0000_0000) <= d.1 <= 46 * 0x1_0000_0000_0000_0000);
            assert(-(46 * 0x1_0000_0000_0000_0000) <= d.2 <= 46 * 0x1_0000_0000_0000_0000);
            assert(46 * 0x1_0000_0000_0000_0000 * (i as int) + 46 * 0x1_0000_0000_0000_0000
                == 46 * 0x1_0000_0000_0000_0000 * (i as int + 1)) by (nonlinear_arith);
            assert(46 * 0x1_0000_0000_0000_0000 * (i as int + 1) <= 46 * 0x1_0000_0000_0000_0000
                * 0x1_0000_0000) by (nonlinear_arith)
                requires 0 <= i as int + 1 <= 0x1_0000_0000;
        }
        sea = sea + d.0;
        fil = fil + d.1;
        sor = sor + d.2;
        i = i + 1;
    }
    proof {
        assert(vals.subrange(0, vals.len() as int) =~= vals);
    }
    proof {
        assert(46 * 0x1_0000_0000_0000_0000 * (n as int) <= 46 * 0x1_0000_0000_0000_0000
            * 0x1_0000_0000) by (nonlinear_arith)
            requires 0 <= n as int <= 0x1_0000_0000;
    }

    (sea, fil, sor)
}

/// The three entropy aggregates of a field: average intra-value entropy,
/// concatenated-alphabet entropy and value-distribution entropy, exactly as
/// [`e_intra`], [`e_cat`] and [`e_dist`] specify.
#[verifier::loop_isolation(false)]
#[verifier::rlimit(60)]
fn compute_aggregates(values: &Vec<ObservedValue>) -> (r: (u64, u64, u64))
    requires
        values@.len() <= 0xFFFF_FFFF,
        forall|k: int| 0 <= k < values@.len() ==> varr_len(#[trigger] values@[k]@.value)
            <= 0xFFFF_FFFF,
    ensures
        r.0 == e_intra(ovs_view(values@)),
        r.1 == e_cat(ovs_view(values@)),
        r.2 == e_dist(ovs_view(values@)),
{
    let ghost vals = ovs_view(values@);
    let n = values.len();
    let mut keys: Vec<String> = Vec::new();
    let mut cnts: Vec<u64> = Vec::new();
    let mut nb: u64 = 0;
    let mut isum: u128 = 0;
    let mut icnt: u64 = 0;
    let mut i: usize = 0;
    while i < n
        invariant
            i <= n,
            n == values@.len(),
            vals == ovs_view(values@),
            vals.len() == n,
            n <= 0xFFFF_FFFF,
            forall|k: int| 0 <= k < values@.len() ==> varr_len(#[trigger] values@[k]@.value)
                <= 0xFFFF_FFFF,
            keys@.len() == cnts@.len(),
            tbl_view(keys@, cnts@) == build_table(all_strings(vals.subrange(0, i as int))),
            nb as nat == sum_nat(counts_view(cnts@)),
            nb as int <= (i as int) * 0xFFFF_FFFF,
            forall|k: int| 0 <= k < cnts@.len() ==> #[trigger] cnts@[k] <= nb,
            isum == intra_sum(vals.subrange(0, i as int)),
            icnt == intra_cnt(vals.subrange(0, i as int)),
            icnt <= i,
            isum <= (icnt as u128) * 0xFFFF_FFFF_FFFF_FFFF,
        decreases n - i,
    {
        proof {
            lemma_field_prefix(vals, i as int);
            assert(vals[i as int] == values@[i as int]@);
            assert((i as int) * 0xFFFF_FFFF + 0xFFFF_FFFF == (i as int + 1) * 0xFFFF_FFFF)
                by (nonlinear_arith);
            assert((i as int + 1) * 0xFFFF_FFFF <= 0x1_0000_0000 * 0xFFFF_FFFF)
                by (nonlinear_arith)
                requires 0 <= i as int + 1 <= 0x1_0000_0000;
        }
        let v = &values[i].value;
        let ghost strings = strings_of(vals[i as int].value);
        match v {
            JsonValue::Str(sv) => {
                proof {
                    assert(strings =~= seq![sv@]);
                    assert(all_strings(vals.subrange(0, i as int)).push(sv@)
                        =~= all_strings(vals.subrange(0, i as int)) + strings);
                }
                tbl_record(&mut keys, &mut cnts, &mut nb, sv,
                    Ghost(all_strings(vals.subrange(0, i as int))));
            },
            JsonValue::Arr(es) => {
                let ghost esv = es@.map_values(|e: JsonElem| e@);
                let ghost base = all_strings(vals.subrange(0, i as int));
                let mut j: usize = 0;
                while j < es.len()
                    invariant
                        j <= es.len(),
                        es@.len() <= 0xFFFF_FFFF,
                        esv == es@.map_values(|e: JsonElem| e@),
                        esv.len() == es@.len(),
                        keys@.len() == cnts@.len(),
                        tbl_view(keys@, cnts@) == build_table(base + str_elems(esv.subrange(0,
                        j as int))),
                        nb as nat == sum_nat(counts_view(cnts@)),
                        nb as int <= (i as int) * 0xFFFF_FFFF + j,
                        forall|k: int| 0 <= k < cnts@.len() ==> #[trigger] cnts@[k] <= nb,
                    decreases es.len() - j,
                {
                    proof {
                        let pre = esv.subrange(0, j as int);
                        let post = esv.subrange(0, j as int + 1);
                        assert(post.drop_last() =~= pre);
                        assert(post.last() == esv[j as int]);
                        assert((i as int) * 0xFFFF_FFFF + j + 1 <= 0x1_0000_0000 * 0xFFFF_FFFF)
                            by (nonlinear_arith)
                            requires
                                0 <= i as int <= 0x1_0000_0000 - 1,
                                0 <= j as int + 1 <= 0xFFFF_FFFF;
                    }
                    match &es[j] {
                        JsonElem::Str(sv) => {
                            proof {
                                assert(str_elems(esv.subrange(0, j as int + 1)) =~= str_elems(
                                esv.subrange(0, j as int)) + seq![sv@]);
                                assert((base + str_elems(esv.subrange(0, j as int))).push(sv@)
                                    =~= base + str_elems(esv.subrange(0, j as int + 1)));
                            }
                            tbl_record(&mut keys, &mut cnts, &mut nb, sv,
                                Ghost(base + str_elems(esv.subrange(0, j as int))));
                        },
                        _ => {
                            proof {
                                assert(str_elems(esv.subrange(0, j as int + 1)) =~= str_elems(
                                esv.subrange(0, j as int)));
                            }
                        },
                    }
                    j = j + 1;
                }
                proof {
                    assert(esv.subrange(0, esv.len() as int) =~= esv);
                    assert(strings == str_elems(esv));
                    assert((i as int) * 0xFFFF_FFFF + es@.len() <= ((i + 1) as int) * 0xFFFF_FFFF)
                        by (nonlinear_arith)
                        requires 0 <= i as int && es@.len() <= 0xFFFF_FFFF;
                }
            },
            _ => {
                proof {
                    assert(strings =~= Seq::<Seq<char>>::empty());
                    assert(all_strings(vals.subrange(0, i as int)) + strings =~= all_strings(
                    vals.subrange(0, i as int)));
                }
            },
        }
        let e = values[i].entropy;
        if e > 0 {
            proof {
                assert(isum + e as u128 <= (icnt as u128 + 1) * 0xFFFF_FFFF_FFFF_FFFF)
                    by (nonlinear_arith)
                    requires
                        isum <= (icnt as u128) * 0xFFFF_FFFF_FFFF_FFFF,
                        0 <= e as u128 <= 0xFFFF_FFFF_FFFF_FFFF,
                        0 <= icnt as u128;
            }
            isum = isum + e as u128;
            icnt = icnt + 1;
        }
        i = i + 1;
    }
    proof {
        assert(vals.subrange(0, vals.len() as int) =~= vals);
    }

    // the three entropy aggregates
    let ei: u64 = if icnt == 0 {
        0
    } else {
        proof {
            vstd::arithmetic::div_mod::lemma_div_is_ordered(isum as int,
                (icnt as u128 * 0xFFFF_FFFF_FFFF_FFFF) as int, icnt as int);
            vstd::arithmetic::div_mod::lemma_div_multiples_vanish(0xFFFF_FFFF_FFFF_FFFF,
                icnt as int);
        }
        (isum / (icnt as u128)) as u64
    };
    proof {
        assert(ei as nat == e_intra(vals));
    }

    let mut cat = String::new();
    let mut i: usize = 0;
    proof {
        assert(concat_keys(tbl_view(keys@, cnts@).subrange(0, 0)) =~= Seq::<char>::empty());
    }
    while i < keys.len()
        invariant
            i <= keys.len(),
            keys@.len() == cnts@.len(),
            cat@ == concat_keys(tbl_view(keys@, cnts@).subrange(0, i as int)),
        decreases keys.len() - i,
    {
        proof {
            let t = tbl_view(keys@, cnts@);
            let pre = t.subrange(0, i as int);
            let post = t.subrange(0, i as int + 1);
            assert(post.drop_last() =~= pre);
            assert(post.last() == t[i as int]);
        }
        cat.append(keys[i].as_str());
        i = i + 1;
    }
    proof {
        assert(tbl_view(keys@, cnts@).subrange(0, keys@.len() as int) =~= tbl_view(keys@, cnts@));
    }
    let ecat = entropy_of(cat.as_str());
    proof {
        assert(ecat as nat == e_cat(vals));
    }

    proof {
        assert(counts_view(cnts@) =~= table_counts(tbl_view(keys@, cnts@)));
    }
    let edist = entropy_of_counts(&cnts);
    proof {
        assert(edist as nat == e_dist(vals));
    }

    (ei, ecat, edist)
}

/// Whether a field is searchable, filterable and sortable, exactly as
/// [`field_settings`] specifies.
#[verifier::loop_isolation(false)]
#[verifier::rlimit(100)]
pub fn score_field(name: &str, values: &Vec<ObservedValue>) -> (r: (bool, bool, bool))
    requires
        values@.len() <= 0xFFFF_FFFF,
        forall|k: int|
            0 <= k < values@.len() ==> 1 <= #[trigger] values@[k].count <= 0xFFFF_FFFF,
        forall|k: int| 0 <= k < values@.len() ==> varr_len(#[trigger] values@[k]@.value)
            <= 0xFFFF_FFFF,
        field_total(ovs_view(values@)) <= 0xFFFF_FFFF,
    ensures
        r.0 == field_settings(name@, ovs_view(values@)).0,
        r.1 == field_settings(name@, ovs_view(values@)).1,
        r.2 == field_settings(name@, ovs_view(values@)).2,
{
    let ghost vals = ovs_view(values@);
    let total = compute_total(values);
    if total == 0 {
        return (false, false, false);
    }
    let raw = compute_raw(values);
    let mut sea = raw.0;
    let mut fil = raw.1;
    let mut sor = raw.2;
    let aggr = compute_aggregates(values);
    let ei = aggr.0;
    let ecat = aggr.1;
    let edist = aggr.2;
    // nudges
    let u64u: u64 = total / 20;
    let u: i128 = u64u as i128;
    proof {
        assert(u <= 0xFFFF_FFFF);
    }
    let strict = is_id_strict(name);
    let loose = is_id_loose(name);
    let ghost adj = name_adjust(raw_scores(vals), name@, u as int);
    if strict {
        sea = sea - 5 * u;
        fil = fil + u;
    }
    if loose {
        sea = sea - u;
        fil = fil + u;
    }
    proof {
        assert(sea == adj.0 && fil == adj.1 && sor == adj.2);
    }
    let ghost fin = apply_tests(adj, u as int, e_cat(vals), e_intra(vals), e_dist(vals));
    let ghost st_a = step_search(adj, u as int, 262144 <= e_cat(vals) < 360448);
    let ghost st_b = step_search(st_a, u as int, 196608 <= e_intra(vals) < 262144);
    let ghost st_c = step_search(st_b, u as int, 786432 <= e_dist(vals) < 1310720);
    let ghost st_d = step_filter(st_c, u as int, e_cat(vals) < 317850);
    let ghost st_e = step_filter(st_d, u as int, e_intra(vals) < 186778);
    if 262144 <= ecat && ecat < 360448 {
        sea = sea + u;
        fil = fil - u;
        sor = sor - u;
    } else {
        sea = sea - u;
    }
    proof {
        assert(sea == st_a.0 && fil == st_a.1 && sor == st_a.2);
    }
    if 196608 <= ei && ei < 262144 {
        sea = sea + u;
        fil = fil - u;
        sor = sor - u;
    } else {
        sea = sea - u;
    }
    proof {
        assert(sea == st_b.0 && fil == st_b.1 && sor == st_b.2);
    }
    if 786432 <= edist && edist < 1310720 {
        sea = sea + u;
        fil = fil - u;
        sor = sor - u;
    } else {
        sea = sea - u;
    }
    proof {
        assert(sea == st_c.0 && fil == st_c.1 && sor == st_c.2);
    }
    if ecat < 317850 {
        fil = fil + u;
        sor = sor + u;
    } else {
        sea = sea - u;
    }
    proof {
        assert(sea == st_d.0 && fil == st_d.1 && sor == st_d.2);
    }
    if ei < 186778 {
        fil = fil + u;
        sor = sor + u;
    } else {
        sea = sea - u;
    }
    proof {
        assert(sea == st_e.0 && fil == st_e.1 && sor == st_e.2);
    }
    if edist < 851968 {
        fil = fil + u;
        sor = sor + u;
    } else {
        sea = sea - u;
    }
    proof {
        assert(sea == fin.0 && fil == fin.1 && sor == fin.2);
    }
    (5 * sea > 4 * (total as i128), 5 * fil > 4 * (total as i128), 5 * sor > 4 * (total as i128))
}


/// Record one occurrence of `sv` in the two-column frequency table.
fn tbl_record(
    keys: &mut Vec<String>,
    cnts: &mut Vec<u64>,
    nb: &mut u64,
    sv: &String,
    base: Ghost<Seq<Seq<char>>>,
)
    requires
        old(keys)@.len() == old(cnts)@.len(),
        tbl_view(old(keys)@, old(cnts)@) == build_table(base@),
        (*old(nb)) as nat == sum_nat(counts_view(old(cnts)@)),
        *old(nb) < 0xFFFF_FFFF_FFFF_FFFE,
        forall|k: int| 0 <= k < old(cnts)@.len() ==> #[trigger] old(cnts)@[k] <= *old(nb),
    ensures
        final(keys)@.len() == final(cnts)@.len(),
        tbl_view(final(keys)@, final(cnts)@) == build_table(base@.push(sv@)),
        *final(nb) == *old(nb) + 1,
        (*final(nb)) as nat == sum_nat(counts_view(final(cnts)@)),
        forall|k: int| 0 <= k < final(cnts)@.len() ==> #[trigger] final(cnts)@[k] <= *final(nb),
{
    proof {
        assert(base@.push(sv@).drop_last() =~= base@);
        assert(build_table(base@.push(sv@)) == tbl_add(build_table(base@), sv@));
        lemma_tbl_find_char(tbl_view(keys@, cnts@), sv@);
    }
    let found = find_string(keys, sv);
    match found {
        Some(j) => {
            let ghost prevc = cnts@;
            proof {
                let t = tbl_view(keys@, cnts@);
                assert(t[j as int].0 == sv@);
                assert(tbl_find(t, sv@) == j as int);
                crate::entropy::lemma_count_sum_update(counts_view(cnts@), j as int);
            }
            let c = cnts[j];
            cnts.set(j, c + 1);
            proof {
                assert(counts_view(cnts@) =~= counts_view(prevc).update(j as int, (prevc[j as int]
                    + 1) as nat));
                assert(tbl_view(keys@, cnts@) =~= tbl_add(tbl_view(keys@, prevc), sv@));
            }
            *nb = *nb + 1;
        },
        None => {
            let ghost prevk = keys@;
            let ghost prevc = cnts@;
            proof {
                let t = tbl_view(keys@, cnts@);
                assert(forall|k: int| 0 <= k < t.len() ==> #[trigger] t[k].0 != sv@);
                assert(tbl_find(t, sv@) == -1) by {
                    if tbl_find(t, sv@) >= 0 {
                        assert(t[tbl_find(t, sv@)].0 == sv@);
                    }
                };
            }
            keys.push(sv.clone());
            cnts.push(1);
            proof {
                assert(counts_view(cnts@) =~= counts_view(prevc).push(1nat));
                assert(counts_view(prevc).push(1nat).drop_last() =~= counts_view(prevc));
                assert(tbl_view(keys@, cnts@) =~= tbl_add(tbl_view(prevk, prevc), sv@));
            }
            *nb = *nb + 1;
        },
    }
}

/// Whether the field name starts with `id_` or ends with `_id`.
fn is_id_strict(name: &str) -> (r: bool)
    ensures
        r == id_strict(name@),
{
    let n = name.unicode_len();
    let starts = n >= 3 && name.get_char(0) == 'i' && name.get_char(1) == 'd' && name.get_char(2)
        == '_';
    let ends = n >= 3 && name.get_char(n - 3) == '_' && name.get_char(n - 2) == 'i'
        && name.get_char(n - 1) == 'd';
    starts || ends
}

/// Whether the field name starts or ends with `id`.
fn is_id_loose(name: &str) -> (r: bool)
    ensures
        r == id_loose(name@),
{
    let n = name.unicode_len();
    let starts = n >= 2 && name.get_char(0) == 'i' && name.get_char(1) == 'd';
    let ends = n >= 2 && name.get_char(n - 2) == 'i' && name.get_char(n - 1) == 'd';
    starts || ends
}


/// How many elements of an array are strings.
pub open spec fn str_elem_count(es: Seq<ElemView>) -> nat
    decreases es.len(),
{
    if es.len() == 0 {
        0
    } else {
        str_elem_count(es.drop_last()) + if es.last() is Str {
            1nat
        } else {
            0nat
        }
    }
}

/// The summed character entropies of the string elements of an array.
pub open spec fn str_entropy_sum(es: Seq<ElemView>) -> nat
    decreases es.len(),
{
    if es.len() == 0 {
        0
    } else {
        str_entropy_sum(es.drop_last()) + match es.last() {
            ElemView::Str(s) => char_entropy(s),
            _ => 0,
        }
    }
}

/// The entropy attached to a value at first insertion: the character
/// entropy of a string, the average character entropy of the string
/// elements of an array (zero when it has none), zero otherwise.
pub open spec fn value_entropy(v: ValueView) -> nat {
    match v {
        ValueView::Str(s) => char_entropy(s),
        ValueView::Arr(es) => if str_elem_count(es) == 0 {
            0
        } else {
            str_entropy_sum(es) / str_elem_count(es)
        },
        _ => 0,
    }
}

/// The entropy of a freshly inserted value, exactly as [`value_entropy`]
/// specifies.
#[verifier::loop_isolation(false)]
pub fn value_entropy_exec(v: &JsonValue) -> (r: u64)
    ensures
        r == value_entropy(v@),
{
    match v {
        JsonValue::Str(s) => entropy_of(s.as_str()),
        JsonValue::Arr(es) => {
            let ghost esv = es@.map_values(|e: JsonElem| e@);
            let mut sum: u128 = 0;
            let mut cnt: u64 = 0;
            let mut i: usize = 0;
            while i < es.len()
                invariant
                    i <= es.len(),
                    esv == es@.map_values(|e: JsonElem| e@),
                    esv.len() == es@.len(),
                    sum == str_entropy_sum(esv.subrange(0, i as int)),
                    cnt == str_elem_count(esv.subrange(0, i as int)),
                    cnt <= i,
                    sum <= (cnt as u128) * 0xFFFF_FFFF_FFFF_FFFF,
                decreases es.len() - i,
            {
                proof {
                    let pre = esv.subrange(0, i as int);
                    let post = esv.subrange(0, i as int + 1);
                    assert(post.drop_last() =~= pre);
                    assert(post.last() == esv[i as int]);
                }
                match &es[i] {
                    JsonElem::Str(sv) => {
                        let e = entropy_of(sv.as_str());
                        proof {
                            assert(sum + e as u128 <= (cnt as u128 + 1) * 0xFFFF_FFFF_FFFF_FFFF)
                                by (nonlinear_arith)
                                requires
                                    sum <= (cnt as u128) * 0xFFFF_FFFF_FFFF_FFFF,
                                    0 <= e as u128 <= 0xFFFF_FFFF_FFFF_FFFF,
                                    0 <= cnt as u128;
                        }
                        sum = sum + e as u128;
                        cnt = cnt + 1;
                    },
                    _ => {},
                }
                i = i + 1;
            }
            proof {
                assert(esv.subrange(0, esv.len() as int) =~= esv);
            }
            if cnt == 0 {
                0
            } else {
                proof {
                    vstd::arithmetic::div_mod::lemma_div_is_ordered(sum as int,
                        (cnt as u128 * 0xFFFF_FFFF_FFFF_FFFF) as int, cnt as int);
                    vstd::arithmetic::div_mod::lemma_div_multiples_vanish(0xFFFF_FFFF_FFFF_FFFF,
                        cnt as int);
                }
                (sum / (cnt as u128)) as u64
            }
        },
        _ => 0,
    }
}

} // verus!
