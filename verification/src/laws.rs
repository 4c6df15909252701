//! Laws of the inference engine, stated and proved over the same spec
//! functions that the executable code is verified against.

use vstd::prelude::*;
use crate::accumulator::{fld_find, lemma_fld_find_char_pub, lemma_val_find_char_pub, push_field,
    push_value, val_find};
use crate::ingest::{push_doc, push_docs, spec_guess, GuessError, InputView};
use crate::json::ValueView;
use crate::score::{all_strings, e_cat, e_dist, e_intra, field_scores, field_settings, field_table,
    field_total, intra_cnt, raw_scores, table_counts, value_entropy, FieldView, ObservedView};
use crate::score::strings_of;
use crate::score::{apply_tests, build_table, concat_keys, id_loose, id_strict, name_adjust,
    string_scores, utf8_len};
use crate::classify::{alpha_count, is_hex_char, is_numeric_token_spec, is_path_spec, is_slash,
    is_url_spec, is_uuid_spec, looks_like_id, url_parts};
use crate::score::{char_utf8_len, lemma_utf8_len_ge};
use crate::entropy::{char_counts, char_entropy, entropy_fp, firsts, sum_nat};
use crate::settings::{assemble, lemma_sorted_insert_sorted, lemma_sorted_unique_by_contains,
    strictly_sorted, SettingsView};

verus! {

/// The filterable and sortable attribute lists of the assembled settings
/// are strictly sorted, hence free of duplicates.
pub proof fn lemma_output_sets_sorted(fields: Seq<FieldView>)
    ensures
        strictly_sorted(assemble(fields).filterable),
        strictly_sorted(assemble(fields).sortable),
    decreases fields.len(),
{
    if fields.len() == 0 {
    } else {
        lemma_output_sets_sorted(fields.drop_last());
        let prev = assemble(fields.drop_last());
        let f = fields.last();
        let st = field_settings(f.name, f.values);
        if st.1 {
            lemma_sorted_insert_sorted(prev.filterable, f.name);
        }
        if st.2 {
            lemma_sorted_insert_sorted(prev.sortable, f.name);
        }
    }
}

/// An input stream in which nothing could be parsed yields `EmptyInput`
/// before any accumulation happens.
pub proof fn lemma_empty_input()
    ensures
        spec_guess(Seq::<InputView>::empty()) == Err::<SettingsView, GuessError>(
            GuessError::EmptyInput,
        ),
{
}

/// The computation is a function of the parsed input stream alone: two
/// equal streams, accumulated by separately constructed accumulators,
/// yield identical final settings.
pub proof fn lemma_guess_deterministic(vs1: Seq<InputView>, vs2: Seq<InputView>)
    requires
        vs1 == vs2,
    ensures
        spec_guess(vs1) == spec_guess(vs2),
{
}

/// One more occurrence of a value a field already holds: the matching
/// record alone changes, keeping its value and its first-insertion entropy
/// and growing its count by one; every other record and every other field
/// stays as it was.  Stated over the ghost accumulation function, so no
/// machine limit is assumed.
pub proof fn lemma_push_increments(fields: Seq<FieldView>, name: Seq<char>, v: ValueView)
    requires
        fld_find(fields, name) >= 0,
        val_find(fields[fld_find(fields, name)].values, v) >= 0,
    ensures
        ({
            let i = fld_find(fields, name);
            let k = val_find(fields[i].values, v);
            let r = push_field(fields, name, v);
            &&& r.len() == fields.len()
            &&& r[i].name == fields[i].name
            &&& r[i].values.len() == fields[i].values.len()
            &&& r[i].values[k].value == fields[i].values[k].value
            &&& r[i].values[k].value == v
            &&& r[i].values[k].count == fields[i].values[k].count + 1
            &&& r[i].values[k].entropy == fields[i].values[k].entropy
            &&& (forall|l: int|
                0 <= l < fields[i].values.len() && l != k ==> r[i].values[l] == fields[i].values[l])
            &&& (forall|j: int| 0 <= j < fields.len() && j != i ==> r[j] == fields[j])
        }),
{
    lemma_fld_find_char_pub(fields, name);
    lemma_val_find_char_pub(fields[fld_find(fields, name)].values, v);
}

/// Pushing the same value for a field twice raises its count by exactly
/// two: a fresh value enters with count two, a known value's count grows
/// by two, and nothing else changes.
pub proof fn lemma_push_value_twice(vals: Seq<ObservedView>, v: ValueView)
    ensures
        val_find(vals, v) >= 0 ==> push_value(push_value(vals, v), v) == vals.update(
            val_find(vals, v),
            ObservedView {
                value: vals[val_find(vals, v)].value,
                count: vals[val_find(vals, v)].count + 2,
                entropy: vals[val_find(vals, v)].entropy,
            },
        ),
        val_find(vals, v) == -1 ==> push_value(push_value(vals, v), v) == vals.push(
            ObservedView { value: v, count: 2, entropy: value_entropy(v) },
        ),
{
    lemma_val_find_char_pub(vals, v);
    let i = val_find(vals, v);
    let r1 = push_value(vals, v);
    lemma_val_find_char_pub(r1, v);
    if i >= 0 {
        assert(r1[i].value == v);
        assert(forall|k: int| 0 <= k < i ==> r1[k].value != v);
        assert(val_find(r1, v) == i) by {
            if val_find(r1, v) == -1 {
                assert(r1[i].value != v);
            } else {
                let j = val_find(r1, v);
                if j < i {
                    assert(r1[j].value != v);
                } else if j > i {
                    assert(r1[i].value != v);
                }
            }
        };
        assert(push_value(r1, v) =~= vals.update(
            i,
            ObservedView {
                value: vals[i].value,
                count: vals[i].count + 2,
                entropy: vals[i].entropy,
            },
        ));
    } else {
        let n = vals.len() as int;
        assert(r1 == vals.push(
            ObservedView { value: v, count: 1, entropy: value_entropy(v) },
        ));
        assert(r1[n].value == v);
        assert(forall|k: int| 0 <= k < n ==> r1[k] == vals[k]);
        assert(val_find(r1, v) == n) by {
            if val_find(r1, v) == -1 {
                assert(r1[n].value != v);
            } else {
                let j = val_find(r1, v);
                if j < n {
                    assert(vals[j].value != v);
                }
            }
        };
        assert(push_value(r1, v) =~= vals.push(
            ObservedView { value: v, count: 2, entropy: value_entropy(v) },
        ));
    }
}

proof fn lemma_numeric_parts(vals: Seq<ObservedView>)
    requires
        forall|k: int|
            0 <= k < vals.len() ==> ((#[trigger] vals[k]).value is Bool || vals[k].value is Num),
        forall|k: int|
            0 <= k < vals.len() ==> (#[trigger] vals[k]).entropy == value_entropy(vals[k].value),
    ensures
        raw_scores(vals).0 == 0,
        raw_scores(vals).1 == field_total(vals),
        raw_scores(vals).2 == field_total(vals),
        all_strings(vals) == Seq::<Seq<char>>::empty(),
        intra_cnt(vals) == 0,
    decreases vals.len(),
{
    if vals.len() == 0 {
        assert(all_strings(vals) =~= Seq::<Seq<char>>::empty());
    } else {
        let pre = vals.drop_last();
        assert(forall|k: int| 0 <= k < pre.len() ==> pre[k] == vals[k]);
        lemma_numeric_parts(pre);
        let last = vals.last();
        assert(last == vals[vals.len() - 1]);
        assert(value_entropy(last.value) == 0);
        assert(strings_of(last.value) =~= Seq::<Seq<char>>::empty());
        assert(all_strings(vals) =~= Seq::<Seq<char>>::empty());
    }
}

/// A field whose observed values are all numbers or booleans is always
/// filterable and sortable and never searchable, whatever its size and
/// name: with no string content every entropy aggregate is zero, so the
/// three low-entropy tests and any id-name nudges only add to filterable
/// and sortable and only subtract from searchable.
pub proof fn lemma_numeric_settings(name: Seq<char>, vals: Seq<ObservedView>)
    requires
        vals.len() > 0,
        forall|k: int|
            0 <= k < vals.len() ==> ((#[trigger] vals[k]).value is Bool || vals[k].value is Num),
        forall|k: int| 0 <= k < vals.len() ==> 1 <= (#[trigger] vals[k]).count,
        forall|k: int|
            0 <= k < vals.len() ==> (#[trigger] vals[k]).entropy == value_entropy(vals[k].value),
    ensures
        !field_settings(name, vals).0,
        field_settings(name, vals).1,
        field_settings(name, vals).2,
{
    lemma_numeric_parts(vals);
    let total = field_total(vals) as int;
    assert(total >= 1) by {
        assert(field_total(vals) == field_total(vals.drop_last()) + vals.last().count);
        assert(vals.last() == vals[vals.len() - 1]);
    };
    let u = (field_total(vals) / 20) as int;
    assert(20 * u <= total && u >= 0) by {
        vstd::arithmetic::div_mod::lemma_fundamental_div_mod(total, 20);
        vstd::arithmetic::div_mod::lemma_div_pos_is_pos(total, 20);
    };
    assert(field_table(vals) == Seq::<(Seq<char>, nat)>::empty()) by {
        assert(build_table(Seq::<Seq<char>>::empty()) == Seq::<(Seq<char>, nat)>::empty());
    };
    assert(e_dist(vals) == 0) by {
        assert(table_counts(Seq::<(Seq<char>, nat)>::empty()) =~= Seq::<nat>::empty());
        assert(sum_nat(Seq::<nat>::empty()) == 0);
    };
    assert(e_cat(vals) == 0) by {
        assert(concat_keys(Seq::<(Seq<char>, nat)>::empty()) == Seq::<char>::empty());
        assert(firsts(Seq::<char>::empty()) == Seq::<char>::empty());
        assert(char_counts(Seq::<char>::empty()) =~= Seq::<nat>::empty());
        assert(sum_nat(Seq::<nat>::empty()) == 0);
    };
    assert(e_intra(vals) == 0);
    let fin = field_scores(name, vals);
    assert(fin.0 <= 0 && fin.1 >= total + 3 * u && fin.2 == total + 3 * u);
    assert(!(5 * fin.0 > 4 * total));
    assert(5 * fin.1 > 4 * total);
    assert(5 * fin.2 > 4 * total);
}

/// A field whose observed values are all numbers or booleans, with fewer
/// than twenty observations (so that the entropy and field-name nudges are
/// zero) and a name without `id` markers, scores exactly its total count on
/// filterable and sortable — one hundred percent — and exactly zero on
/// searchable, so it is filterable and sortable and not searchable.
pub proof fn lemma_numeric_field(name: Seq<char>, vals: Seq<ObservedView>)
    requires
        vals.len() > 0,
        forall|k: int|
            0 <= k < vals.len() ==> ((#[trigger] vals[k]).value is Bool || vals[k].value is Num),
        forall|k: int| 0 <= k < vals.len() ==> 1 <= (#[trigger] vals[k]).count,
        forall|k: int|
            0 <= k < vals.len() ==> (#[trigger] vals[k]).entropy == value_entropy(vals[k].value),
        field_total(vals) < 20,
        !id_strict(name),
        !id_loose(name),
    ensures
        field_scores(name, vals).0 == 0,
        field_scores(name, vals).1 == field_total(vals),
        field_scores(name, vals).2 == field_total(vals),
        !field_settings(name, vals).0,
        field_settings(name, vals).1,
        field_settings(name, vals).2,
{
    lemma_numeric_parts(vals);
    let total = field_total(vals);
    assert(total >= 1) by {
        assert(field_total(vals) == field_total(vals.drop_last()) + vals.last().count);
        assert(vals.last() == vals[vals.len() - 1]);
    };
    let u = (total / 20) as int;
    assert(u == 0) by {
        vstd::arithmetic::div_mod::lemma_basic_div(total as int, 20);
    };
    assert(field_table(vals) == Seq::<(Seq<char>, nat)>::empty()) by {
        assert(build_table(Seq::<Seq<char>>::empty()) == Seq::<(Seq<char>, nat)>::empty());
    };
    assert(e_dist(vals) == 0) by {
        assert(table_counts(Seq::<(Seq<char>, nat)>::empty()) =~= Seq::<nat>::empty());
        assert(sum_nat(Seq::<nat>::empty()) == 0);
    };
    assert(e_cat(vals) == 0) by {
        assert(concat_keys(Seq::<(Seq<char>, nat)>::empty()) == Seq::<char>::empty());
        assert(firsts(Seq::<char>::empty()) == Seq::<char>::empty());
        assert(char_counts(Seq::<char>::empty()) =~= Seq::<nat>::empty());
        assert(sum_nat(Seq::<nat>::empty()) == 0);
    };
    assert(e_intra(vals) == 0);
    assert(field_scores(name, vals).0 == 0);
    assert(field_scores(name, vals).1 == total);
    assert(field_scores(name, vals).2 == total);
}

proof fn lemma_name_adjust_bounds(sc: (int, int, int), name: Seq<char>, u: int)
    requires
        u >= 0,
    ensures
        sc.0 - 6 * u <= name_adjust(sc, name, u).0 <= sc.0,
        sc.1 <= name_adjust(sc, name, u).1 <= sc.1 + 2 * u,
        name_adjust(sc, name, u).2 == sc.2,
{
}

proof fn lemma_apply_tests_bounds(sc: (int, int, int), u: int, ec: nat, ei: nat, ed: nat)
    requires
        u >= 0,
    ensures
        sc.0 - 6 * u <= apply_tests(sc, u, ec, ei, ed).0 <= sc.0 + 3 * u,
        sc.1 - 3 * u <= apply_tests(sc, u, ec, ei, ed).1 <= sc.1 + 3 * u,
        sc.2 - 3 * u <= apply_tests(sc, u, ec, ei, ed).2 <= sc.2 + 3 * u,
{
}

proof fn lemma_utf8_ascii(s: Seq<char>)
    requires
        forall|i: int| 0 <= i < s.len() ==> ((#[trigger] s[i]) as u32) < 128,
    ensures
        utf8_len(s) == s.len(),
    decreases s.len(),
{
    if s.len() > 0 {
        assert(forall|i: int| 0 <= i < s.len() - 1 ==> s.drop_last()[i] == s[i]);
        lemma_utf8_ascii(s.drop_last());
        assert(s.last() == s[s.len() - 1]);
        assert(char_utf8_len(s.last()) == 1);
    }
}

proof fn lemma_uuid_value_scores(s: Seq<char>, w: nat)
    requires
        is_uuid_spec(s),
        w >= 1,
    ensures
        string_scores(s, w, true).0 <= -9 * (w as int),
        string_scores(s, w, true).1 >= w as int + 1,
{
    assert(s.len() == 36);
    assert(utf8_len(s) == 36) by {
        assert(forall|i: int| 0 <= i < s.len() ==> ((#[trigger] s[i]) as u32) < 128) by {
            assert forall|i: int| 0 <= i < s.len() implies ((#[trigger] s[i]) as u32) < 128 by {
                if i == 8 || i == 13 || i == 18 || i == 23 {
                    assert(s[i] == '-');
                } else {
                    assert(is_hex_char(s[i]));
                }
            };
        };
        lemma_utf8_ascii(s);
    };
    assert(!is_url_spec(s)) by {
        if is_url_spec(s) {
            let (p, q1, q2) = choose|p: int, q1: int, q2: int| url_parts(s, p, q1, q2);
            assert(s[0] == 'h');
            assert(is_hex_char(s[0]));
        }
    };
    assert(!is_path_spec(s)) by {
        if is_path_spec(s) {
            let k = choose|k: int|
                0 <= k < s.len() && is_slash(s[k]) && (forall|i: int| 0 <= i < k ==> s[i] != '\n')
                    && (forall|i: int| k < i < s.len() ==> !is_slash(s[i]));
            if k == 8 || k == 13 || k == 18 || k == 23 {
                assert(s[k] == '-');
            } else {
                assert(is_hex_char(s[k]));
            }
        }
    };
}

proof fn lemma_uuid_raw(vals: Seq<ObservedView>)
    requires
        forall|k: int|
            0 <= k < vals.len() ==> match (#[trigger] vals[k]).value {
                ValueView::Str(s) => is_uuid_spec(s),
                _ => false,
            },
        forall|k: int| 0 <= k < vals.len() ==> 1 <= (#[trigger] vals[k]).count,
    ensures
        raw_scores(vals).0 <= -9 * (field_total(vals) as int),
        raw_scores(vals).1 >= field_total(vals) as int,
    decreases vals.len(),
{
    if vals.len() > 0 {
        let pre = vals.drop_last();
        assert(forall|k: int| 0 <= k < pre.len() ==> pre[k] == vals[k]);
        lemma_uuid_raw(pre);
        let last = vals.last();
        assert(last == vals[vals.len() - 1]);
        match last.value {
            ValueView::Str(s) => {
                lemma_uuid_value_scores(s, last.count);
            },
            _ => {
                assert(false);
            },
        }
    }
}

/// A field whose values are all version-4 UUID strings is classified
/// filterable and not searchable: each occurrence pays the id and UUID
/// penalties on searchable and earns filterable credit, and the entropy
/// and field-name nudges are too small to overturn either margin.
pub proof fn lemma_uuid_field(name: Seq<char>, vals: Seq<ObservedView>)
    requires
        vals.len() > 0,
        forall|k: int|
            0 <= k < vals.len() ==> match (#[trigger] vals[k]).value {
                ValueView::Str(s) => is_uuid_spec(s),
                _ => false,
            },
        forall|k: int| 0 <= k < vals.len() ==> 1 <= (#[trigger] vals[k]).count,
    ensures
        field_settings(name, vals).1,
        !field_settings(name, vals).0,
{
    lemma_uuid_raw(vals);
    let total = field_total(vals) as int;
    assert(total >= 1) by {
        assert(field_total(vals) == field_total(vals.drop_last()) + vals.last().count);
        assert(vals.last() == vals[vals.len() - 1]);
    };
    let u = (field_total(vals) / 20) as int;
    assert(20 * u <= total && u >= 0) by {
        vstd::arithmetic::div_mod::lemma_fundamental_div_mod(total, 20);
        vstd::arithmetic::div_mod::lemma_div_pos_is_pos(total, 20);
    };
    let raw = raw_scores(vals);
    let adj = name_adjust(raw, name, u);
    lemma_name_adjust_bounds(raw, name, u);
    lemma_apply_tests_bounds(adj, u, e_cat(vals), e_intra(vals), e_dist(vals));
    let fin = field_scores(name, vals);
    assert(fin.1 >= total - 3 * u);
    assert(fin.0 <= -9 * total + 3 * u);
    assert(5 * fin.1 > 4 * total);
    assert(!(5 * fin.0 > 4 * total));
}

proof fn lemma_prose_value_scores(s: Seq<char>, w: nat)
    requires
        s.len() > 100,
        5 * alpha_count(s) > 4 * s.len(),
        !looks_like_id(s),
        !is_url_spec(s),
        !is_path_spec(s),
        !is_numeric_token_spec(s),
        w >= 1,
    ensures
        string_scores(s, w, true).0 == 4 * w,
        string_scores(s, w, true).2 == -2 * (w as int),
{
    lemma_utf8_len_ge(s);
    assert(utf8_len(s) > 36);
    assert(!is_uuid_spec(s));
}

proof fn lemma_prose_raw(vals: Seq<ObservedView>)
    requires
        forall|k: int|
            0 <= k < vals.len() ==> match (#[trigger] vals[k]).value {
                ValueView::Str(s) => s.len() > 100 && 5 * alpha_count(s) > 4 * s.len()
                    && !looks_like_id(s) && !is_url_spec(s) && !is_path_spec(s)
                    && !is_numeric_token_spec(s),
                _ => false,
            },
        forall|k: int| 0 <= k < vals.len() ==> 1 <= (#[trigger] vals[k]).count,
    ensures
        raw_scores(vals).0 == 4 * field_total(vals),
        raw_scores(vals).2 == -2 * (field_total(vals) as int),
    decreases vals.len(),
{
    if vals.len() > 0 {
        let pre = vals.drop_last();
        assert(forall|k: int| 0 <= k < pre.len() ==> pre[k] == vals[k]);
        lemma_prose_raw(pre);
        let last = vals.last();
        assert(last == vals[vals.len() - 1]);
        match last.value {
            ValueView::Str(s) => {
                lemma_prose_value_scores(s, last.count);
            },
            _ => {
                assert(false);
            },
        }
    }
}

/// A field whose values are all long natural-language sentences — over a
/// hundred characters, over eighty percent alphabetic, not id-like, and
/// matching none of the classifier patterns — is classified searchable and
/// not sortable: prose earns a four-fold searchable credit per occurrence
/// and arrays aside, long strings pay the sortable penalty, margins the
/// nudges cannot overturn.
pub proof fn lemma_prose_field(name: Seq<char>, vals: Seq<ObservedView>)
    requires
        vals.len() > 0,
        forall|k: int|
            0 <= k < vals.len() ==> match (#[trigger] vals[k]).value {
                ValueView::Str(s) => s.len() > 100 && 5 * alpha_count(s) > 4 * s.len()
                    && !looks_like_id(s) && !is_url_spec(s) && !is_path_spec(s)
                    && !is_numeric_token_spec(s),
                _ => false,
            },
        forall|k: int| 0 <= k < vals.len() ==> 1 <= (#[trigger] vals[k]).count,
    ensures
        field_settings(name, vals).0,
        !field_settings(name, vals).2,
{
    lemma_prose_raw(vals);
    let total = field_total(vals) as int;
    assert(total >= 1) by {
        assert(field_total(vals) == field_total(vals.drop_last()) + vals.last().count);
        assert(vals.last() == vals[vals.len() - 1]);
    };
    let u = (field_total(vals) / 20) as int;
    assert(20 * u <= total && u >= 0) by {
        vstd::arithmetic::div_mod::lemma_fundamental_div_mod(total, 20);
        vstd::arithmetic::div_mod::lemma_div_pos_is_pos(total, 20);
    };
    let raw = raw_scores(vals);
    let adj = name_adjust(raw, name, u);
    lemma_name_adjust_bounds(raw, name, u);
    lemma_apply_tests_bounds(adj, u, e_cat(vals), e_intra(vals), e_dist(vals));
    let fin = field_scores(name, vals);
    assert(fin.0 >= 4 * total - 12 * u);
    assert(fin.2 <= -2 * total + 3 * u);
    assert(5 * fin.0 > 4 * total);
    assert(!(5 * fin.2 > 4 * total));
}

/// Whether a field carrying the given capability and name occurs in the
/// sequence.
pub open spec fn has_field_with(fields: Seq<FieldView>, y: Seq<char>, which: int) -> bool {
    exists|i: int|
        0 <= i < fields.len() && (#[trigger] fields[i]).name == y && (if which == 0 {
            field_settings(fields[i].name, fields[i].values).0
        } else if which == 1 {
            field_settings(fields[i].name, fields[i].values).1
        } else {
            field_settings(fields[i].name, fields[i].values).2
        })
}

proof fn lemma_assemble_contains(fields: Seq<FieldView>, y: Seq<char>)
    ensures
        assemble(fields).searchable.contains(y) <==> has_field_with(fields, y, 0),
        assemble(fields).filterable.contains(y) <==> has_field_with(fields, y, 1),
        assemble(fields).sortable.contains(y) <==> has_field_with(fields, y, 2),
    decreases fields.len(),
{
    if fields.len() == 0 {
    } else {
        let pre = fields.drop_last();
        lemma_assemble_contains(pre, y);
        lemma_output_sets_sorted(pre);
        assert(forall|i: int| 0 <= i < pre.len() ==> pre[i] == fields[i]);
        let prev = assemble(pre);
        let f = fields.last();
        assert(f == fields[fields.len() - 1]);
        let st = field_settings(f.name, f.values);
        let cur = assemble(fields);

        // searchable: push
        if st.0 {
            assert(cur.searchable == prev.searchable.push(f.name));
            assert(cur.searchable.contains(y) <==> (prev.searchable.contains(y) || y == f.name))
                by {
                if prev.searchable.contains(y) {
                    let k = choose|k: int| 0 <= k < prev.searchable.len() && prev.searchable[k]
                        == y;
                    assert(cur.searchable[k] == y);
                }
                if y == f.name {
                    assert(cur.searchable[prev.searchable.len() as int] == y);
                }
                if cur.searchable.contains(y) {
                    let k = choose|k: int|
                        0 <= k < cur.searchable.len() && cur.searchable[k] == y;
                    if k < prev.searchable.len() {
                        assert(prev.searchable[k] == y);
                    }
                }
            };
        } else {
            assert(cur.searchable == prev.searchable);
        }
        assert(cur.searchable.contains(y) <==> has_field_with(fields, y, 0)) by {
            if has_field_with(pre, y, 0) {
                let i = choose|i: int|
                    0 <= i < pre.len() && (#[trigger] pre[i]).name == y && field_settings(
                        pre[i].name,
                        pre[i].values,
                    ).0;
                assert(fields[i].name == y && field_settings(fields[i].name, fields[i].values).0);
            }
            if has_field_with(fields, y, 0) {
                let i = choose|i: int|
                    0 <= i < fields.len() && (#[trigger] fields[i]).name == y && field_settings(
                        fields[i].name,
                        fields[i].values,
                    ).0;
                if i < fields.len() - 1 {
                    assert(pre[i].name == y && field_settings(pre[i].name, pre[i].values).0);
                    assert(has_field_with(pre, y, 0));
                }
            }
        };

        // filterable and sortable: sorted insertion
        if st.1 {
            lemma_sorted_insert_sorted(prev.filterable, f.name);
        }
        if st.2 {
            lemma_sorted_insert_sorted(prev.sortable, f.name);
        }
        assert(cur.filterable.contains(y) <==> has_field_with(fields, y, 1)) by {
            if has_field_with(pre, y, 1) {
                let i = choose|i: int|
                    0 <= i < pre.len() && (#[trigger] pre[i]).name == y && field_settings(
                        pre[i].name,
                        pre[i].values,
                    ).1;
                assert(fields[i].name == y && field_settings(fields[i].name, fields[i].values).1);
            }
            if has_field_with(fields, y, 1) {
                let i = choose|i: int|
                    0 <= i < fields.len() && (#[trigger] fields[i]).name == y && field_settings(
                        fields[i].name,
                        fields[i].values,
                    ).1;
                if i < fields.len() - 1 {
                    assert(pre[i].name == y && field_settings(pre[i].name, pre[i].values).1);
                    assert(has_field_with(pre, y, 1));
                }
            }
        };
        assert(cur.sortable.contains(y) <==> has_field_with(fields, y, 2)) by {
            if has_field_with(pre, y, 2) {
                let i = choose|i: int|
                    0 <= i < pre.len() && (#[trigger] pre[i]).name == y && field_settings(
                        pre[i].name,
                        pre[i].values,
                    ).2;
                assert(fields[i].name == y && field_settings(fields[i].name, fields[i].values).2);
            }
            if has_field_with(fields, y, 2) {
                let i = choose|i: int|
                    0 <= i < fields.len() && (#[trigger] fields[i]).name == y && field_settings(
                        fields[i].name,
                        fields[i].values,
                    ).2;
                if i < fields.len() - 1 {
                    assert(pre[i].name == y && field_settings(pre[i].name, pre[i].values).2);
                    assert(has_field_with(pre, y, 2));
                }
            }
        };
    }
}

/// The order in which fields were discovered does not change the assembled
/// filterable and sortable sets, nor which fields are searchable — only
/// the printed order of the searchable list: two accumulations that
/// produced the same fields, each with the same records, assemble the same
/// sets.
pub proof fn lemma_field_order_irrelevant(f1: Seq<FieldView>, f2: Seq<FieldView>)
    requires
        forall|f: FieldView| f1.contains(f) <==> f2.contains(f),
    ensures
        assemble(f1).filterable == assemble(f2).filterable,
        assemble(f1).sortable == assemble(f2).sortable,
        forall|y: Seq<char>|
            assemble(f1).searchable.contains(y) <==> assemble(f2).searchable.contains(y),
{
    assert forall|y: Seq<char>, which: int|
        has_field_with(f1, y, which) <==> has_field_with(f2, y, which) by {
        if has_field_with(f1, y, which) {
            let i = choose|i: int|
                0 <= i < f1.len() && (#[trigger] f1[i]).name == y && (if which == 0 {
                    field_settings(f1[i].name, f1[i].values).0
                } else if which == 1 {
                    field_settings(f1[i].name, f1[i].values).1
                } else {
                    field_settings(f1[i].name, f1[i].values).2
                });
            assert(f1.contains(f1[i]));
            assert(f2.contains(f1[i]));
            let j = choose|j: int| 0 <= j < f2.len() && f2[j] == f1[i];
            assert(has_field_with(f2, y, which));
        }
        if has_field_with(f2, y, which) {
            let i = choose|i: int|
                0 <= i < f2.len() && (#[trigger] f2[i]).name == y && (if which == 0 {
                    field_settings(f2[i].name, f2[i].values).0
                } else if which == 1 {
                    field_settings(f2[i].name, f2[i].values).1
                } else {
                    field_settings(f2[i].name, f2[i].values).2
                });
            assert(f2.contains(f2[i]));
            assert(f1.contains(f2[i]));
            let j = choose|j: int| 0 <= j < f1.len() && f1[j] == f2[i];
            assert(has_field_with(f1, y, which));
        }
    };
    assert forall|y: Seq<char>|
        assemble(f1).filterable.contains(y) <==> assemble(f2).filterable.contains(y) by {
        lemma_assemble_contains(f1, y);
        lemma_assemble_contains(f2, y);
    };
    assert forall|y: Seq<char>|
        assemble(f1).sortable.contains(y) <==> assemble(f2).sortable.contains(y) by {
        lemma_assemble_contains(f1, y);
        lemma_assemble_contains(f2, y);
    };
    assert forall|y: Seq<char>|
        assemble(f1).searchable.contains(y) <==> assemble(f2).searchable.contains(y) by {
        lemma_assemble_contains(f1, y);
        lemma_assemble_contains(f2, y);
    };
    lemma_output_sets_sorted(f1);
    lemma_output_sets_sorted(f2);
    lemma_sorted_unique_by_contains(assemble(f1).filterable, assemble(f2).filterable);
    lemma_sorted_unique_by_contains(assemble(f1).sortable, assemble(f2).sortable);
}

proof fn lemma_field_total_doubled(vals1: Seq<ObservedView>, vals2: Seq<ObservedView>)
    requires
        vals1.len() == vals2.len(),
        forall|k: int|
            0 <= k < vals1.len() ==> (#[trigger] vals2[k]).count == 2 * vals1[k].count,
    ensures
        field_total(vals2) == 2 * field_total(vals1),
    decreases vals1.len(),
{
    if vals1.len() > 0 {
        let p1 = vals1.drop_last();
        let p2 = vals2.drop_last();
        assert(forall|k: int| 0 <= k < p1.len() ==> p1[k] == vals1[k] && p2[k] == vals2[k]);
        lemma_field_total_doubled(p1, p2);
        assert(vals1.last() == vals1[vals1.len() - 1]);
        assert(vals2.last() == vals2[vals2.len() - 1]);
    }
}

/// Pushing the same document set twice doubles every observed count; for a
/// field of numbers and booleans whose doubled total still stays under the
/// nudge threshold, the three score percentages — and with them the
/// settings — are unchanged by the doubling.
pub proof fn lemma_numeric_doubling(
    name: Seq<char>,
    vals1: Seq<ObservedView>,
    vals2: Seq<ObservedView>,
)
    requires
        vals1.len() > 0,
        vals1.len() == vals2.len(),
        forall|k: int| 0 <= k < vals1.len() ==> (#[trigger] vals2[k]).value == vals1[k].value,
        forall|k: int|
            0 <= k < vals1.len() ==> (#[trigger] vals2[k]).count == 2 * vals1[k].count,
        forall|k: int| 0 <= k < vals1.len() ==> (#[trigger] vals2[k]).entropy == vals1[k].entropy,
        forall|k: int|
            0 <= k < vals1.len() ==> ((#[trigger] vals1[k]).value is Bool || vals1[k].value
                is Num),
        forall|k: int| 0 <= k < vals1.len() ==> 1 <= (#[trigger] vals1[k]).count,
        forall|k: int|
            0 <= k < vals1.len() ==> (#[trigger] vals1[k]).entropy == value_entropy(
                vals1[k].value,
            ),
        field_total(vals2) < 20,
        !id_strict(name),
        !id_loose(name),
    ensures
        field_scores(name, vals2).0 * field_total(vals1) == field_scores(name, vals1).0
            * field_total(vals2),
        field_scores(name, vals2).1 * field_total(vals1) == field_scores(name, vals1).1
            * field_total(vals2),
        field_scores(name, vals2).2 * field_total(vals1) == field_scores(name, vals1).2
            * field_total(vals2),
        field_settings(name, vals2) == field_settings(name, vals1),
{
    lemma_field_total_doubled(vals1, vals2);
    lemma_numeric_field(name, vals1);
    assert(forall|k: int|
        0 <= k < vals2.len() ==> ((#[trigger] vals2[k]).value is Bool || vals2[k].value is Num));
    assert(forall|k: int| 0 <= k < vals2.len() ==> 1 <= (#[trigger] vals2[k]).count);
    assert(forall|k: int|
        0 <= k < vals2.len() ==> (#[trigger] vals2[k]).entropy == value_entropy(vals2[k].value));
    lemma_numeric_field(name, vals2);
    let t1 = field_total(vals1) as int;
    let t2 = field_total(vals2) as int;
    assert(t2 == 2 * t1);
    assert(field_settings(name, vals1).0 == field_settings(name, vals2).0);
    assert(field_settings(name, vals1).1 == field_settings(name, vals2).1);
    assert(field_settings(name, vals1).2 == field_settings(name, vals2).2);
    assert(field_settings(name, vals2) == field_settings(name, vals1)) by {
        let a = field_settings(name, vals1);
        let b = field_settings(name, vals2);
        assert(a.0 == b.0 && a.1 == b.1 && a.2 == b.2);
        assert(a == (a.0, a.1, a.2));
        assert(b == (b.0, b.1, b.2));
    };
}

/// One single-valued field per document pair, each value carrying the
/// given count.
pub open spec fn singleton_fields(d: Seq<(Seq<char>, ValueView)>, c: nat) -> Seq<FieldView> {
    d.map_values(
        |p: (Seq<char>, ValueView)|
            FieldView {
                name: p.0,
                values: seq![
                    ObservedView { value: p.1, count: c, entropy: value_entropy(p.1) },
                ],
            },
    )
}

proof fn lemma_push_doc_fresh(fields: Seq<FieldView>, d: Seq<(Seq<char>, ValueView)>)
    requires
        forall|i: int, j: int| 0 <= i < j < d.len() ==> (#[trigger] d[i]).0 != (#[trigger] d[j]).0,
        forall|i: int, j: int|
            0 <= i < fields.len() && 0 <= j < d.len() ==> (#[trigger] fields[i]).name != (
            #[trigger] d[j]).0,
    ensures
        push_doc(fields, d) == fields + singleton_fields(d, 1),
    decreases d.len(),
{
    if d.len() == 0 {
        assert(push_doc(fields, d) =~= fields + singleton_fields(d, 1));
    } else {
        let pre = d.drop_last();
        assert(forall|i: int| 0 <= i < pre.len() ==> pre[i] == d[i]);
        lemma_push_doc_fresh(fields, pre);
        let mid = fields + singleton_fields(pre, 1);
        let last = d.last();
        assert(last == d[d.len() - 1]);
        lemma_fld_find_char_pub(mid, last.0);
        assert(fld_find(mid, last.0) == -1) by {
            if fld_find(mid, last.0) >= 0 {
                let k = fld_find(mid, last.0);
                if k < fields.len() {
                    assert(mid[k] == fields[k]);
                } else {
                    assert(mid[k] == singleton_fields(pre, 1)[k - fields.len()]);
                    assert(pre[k - fields.len()].0 == d[k - fields.len()].0);
                }
            }
        };
        assert(val_find(Seq::<ObservedView>::empty(), last.1) == -1);
        assert(push_value(Seq::<ObservedView>::empty(), last.1) =~= seq![
            ObservedView { value: last.1, count: 1, entropy: value_entropy(last.1) },
        ]);
        assert(push_doc(fields, d) =~= fields + singleton_fields(d, 1));
    }
}

proof fn lemma_push_doc_again(d: Seq<(Seq<char>, ValueView)>, i: int)
    requires
        0 <= i <= d.len(),
        forall|a: int, b: int| 0 <= a < b < d.len() ==> (#[trigger] d[a]).0 != (#[trigger] d[b]).0,
    ensures
        push_doc(singleton_fields(d, 1), d.subrange(0, i)) == singleton_fields(
            d.subrange(0, i),
            2,
        ) + singleton_fields(d.skip(i), 1).subrange(0, d.len() - i),
    decreases i,
{
    let s1 = singleton_fields(d, 1);
    if i == 0 {
        assert(d.subrange(0, 0).len() == 0);
        assert(push_doc(s1, d.subrange(0, 0)) == s1);
        assert(singleton_fields(d.subrange(0, 0), 2) + singleton_fields(d.skip(0), 1).subrange(
            0,
            d.len() - 0,
        ) =~= s1);
    } else {
        lemma_push_doc_again(d, i - 1);
        let prev = singleton_fields(d.subrange(0, i - 1), 2) + singleton_fields(
            d.skip(i - 1),
            1,
        ).subrange(0, d.len() - (i - 1));
        assert(d.subrange(0, i).drop_last() =~= d.subrange(0, i - 1));
        assert(d.subrange(0, i).last() == d[i - 1]);
        assert(push_doc(s1, d.subrange(0, i)) == push_field(prev, d[i - 1].0, d[i - 1].1));
        assert(prev.len() == d.len());
        assert forall|k: int| 0 <= k < d.len() implies (#[trigger] prev[k]).name == d[k].0 by {
            if k < i - 1 {
                assert(prev[k] == singleton_fields(d.subrange(0, i - 1), 2)[k]);
                assert(d.subrange(0, i - 1)[k] == d[k]);
            } else {
                assert(prev[k] == singleton_fields(d.skip(i - 1), 1).subrange(
                    0,
                    d.len() - (i - 1),
                )[k - (i - 1)]);
                assert(d.skip(i - 1)[k - (i - 1)] == d[k]);
            }
        };
        lemma_fld_find_char_pub(prev, d[i - 1].0);
        assert(fld_find(prev, d[i - 1].0) == i - 1) by {
            assert(prev[i - 1].name == d[i - 1].0);
            if fld_find(prev, d[i - 1].0) == -1 {
            } else {
                let k = fld_find(prev, d[i - 1].0);
                assert(prev[k].name == d[i - 1].0);
                if k < i - 1 {
                    assert(d[k].0 != d[i - 1].0);
                } else if k > i - 1 {
                    assert(prev[i - 1].name != d[i - 1].0);
                }
            }
        };
        let old_vals = prev[i - 1].values;
        assert(old_vals == seq![
            ObservedView { value: d[i - 1].1, count: 1, entropy: value_entropy(d[i - 1].1) },
        ]) by {
            assert(prev[i - 1] == singleton_fields(d.skip(i - 1), 1).subrange(
                0,
                d.len() - (i - 1),
            )[0]);
            assert(d.skip(i - 1)[0] == d[i - 1]);
        };
        assert(val_find(old_vals, d[i - 1].1) == 0);
        assert(push_value(old_vals, d[i - 1].1) =~= seq![
            ObservedView { value: d[i - 1].1, count: 2, entropy: value_entropy(d[i - 1].1) },
        ]);
        assert(push_field(prev, d[i - 1].0, d[i - 1].1) =~= singleton_fields(d.subrange(0, i), 2)
            + singleton_fields(d.skip(i), 1).subrange(0, d.len() - i)) by {
            assert forall|k: int|
                0 <= k < d.len() implies #[trigger] (push_field(prev, d[i - 1].0, d[i - 1].1)[k])
                == (singleton_fields(d.subrange(0, i), 2) + singleton_fields(d.skip(i), 1).subrange(
                0,
                d.len() - i,
            ))[k] by {
                if k < i - 1 {
                    assert(d.subrange(0, i - 1)[k] == d[k]);
                    assert(d.subrange(0, i)[k] == d[k]);
                } else if k == i - 1 {
                    assert(d.subrange(0, i)[k] == d[k]);
                } else {
                    assert(d.skip(i - 1)[k - (i - 1)] == d[k]);
                    assert(d.skip(i)[k - i] == d[k]);
                }
            };
        };
    }
}

/// Pushing one flattened document with pairwise-distinct field paths into
/// an empty accumulator yields one field per pair, each with a single
/// observed value of count one; pushing the same document a second time
/// leaves the fields and values as they are and doubles every count to
/// two.
pub proof fn lemma_document_doubling(d: Seq<(Seq<char>, ValueView)>)
    requires
        forall|i: int, j: int| 0 <= i < j < d.len() ==> (#[trigger] d[i]).0 != (#[trigger] d[j]).0,
    ensures
        push_doc(Seq::empty(), d) == singleton_fields(d, 1),
        push_doc(push_doc(Seq::empty(), d), d) == singleton_fields(d, 2),
{
    lemma_push_doc_fresh(Seq::empty(), d);
    assert(push_doc(Seq::empty(), d) =~= singleton_fields(d, 1));
    lemma_push_doc_again(d, d.len() as int);
    assert(d.subrange(0, d.len() as int) =~= d);
    assert(singleton_fields(d, 2) + singleton_fields(d.skip(d.len() as int), 1).subrange(0, 0)
        =~= singleton_fields(d, 2));
}

/// The fields contributed by a sequence of documents whose field paths do
/// not recur across documents: one block of single-valued fields per
/// document, in document order.
pub open spec fn doc_fields(docs: Seq<Seq<(Seq<char>, ValueView)>>) -> Seq<FieldView>
    decreases docs.len(),
{
    if docs.len() == 0 {
        Seq::empty()
    } else {
        doc_fields(docs.drop_last()) + singleton_fields(docs.last(), 1)
    }
}

/// Every field path of every document is pairwise distinct, within each
/// document and across documents.
pub open spec fn paths_unique(docs: Seq<Seq<(Seq<char>, ValueView)>>) -> bool {
    &&& (forall|i: int, a: int, b: int|
        0 <= i < docs.len() && 0 <= a < b < docs[i].len() ==> (#[trigger] docs[i][a]).0 != (
        #[trigger] docs[i][b]).0)
    &&& (forall|i: int, j: int, a: int, b: int|
        0 <= i < j < docs.len() && 0 <= a < docs[i].len() && 0 <= b < docs[j].len() ==> (
        #[trigger] docs[i][a]).0 != (#[trigger] docs[j][b]).0)
}

proof fn lemma_push_docs_blocks(docs: Seq<Seq<(Seq<char>, ValueView)>>)
    requires
        paths_unique(docs),
    ensures
        push_docs(Seq::empty(), docs) == doc_fields(docs),
        forall|k: int|
            0 <= k < doc_fields(docs).len() ==> exists|i: int, a: int|
                0 <= i < docs.len() && 0 <= a < docs[i].len() && (#[trigger] doc_fields(
                    docs,
                )[k]).name == docs[i][a].0,
    decreases docs.len(),
{
    if docs.len() == 0 {
    } else {
        let pre = docs.drop_last();
        assert(forall|i: int| 0 <= i < pre.len() ==> pre[i] == docs[i]);
        assert(paths_unique(pre));
        lemma_push_docs_blocks(pre);
        let base = doc_fields(pre);
        let d = docs.last();
        assert(d == docs[docs.len() - 1]);
        assert(forall|a: int, b: int| 0 <= a < b < d.len() ==> d[a].0 != d[b].0);
        assert forall|i: int, j: int|
            0 <= i < base.len() && 0 <= j < d.len() implies (#[trigger] base[i]).name != (
        #[trigger] d[j]).0 by {
            let (bi, ba) = choose|bi: int, ba: int|
                0 <= bi < pre.len() && 0 <= ba < pre[bi].len() && base[i].name == pre[bi][ba].0;
            assert(docs[bi][ba].0 != docs[docs.len() - 1][j].0);
        };
        lemma_push_doc_fresh(base, d);
        assert(push_docs(Seq::empty(), docs) == doc_fields(docs));
        assert forall|k: int|
            0 <= k < doc_fields(docs).len() implies exists|i: int, a: int|
                0 <= i < docs.len() && 0 <= a < docs[i].len() && (#[trigger] doc_fields(
                    docs,
                )[k]).name == docs[i][a].0 by {
            if k < base.len() {
                assert(doc_fields(docs)[k] == base[k]);
                let (bi, ba) = choose|bi: int, ba: int|
                    0 <= bi < pre.len() && 0 <= ba < pre[bi].len() && base[k].name
                        == pre[bi][ba].0;
                assert(doc_fields(docs)[k].name == docs[bi][ba].0);
            } else {
                assert(doc_fields(docs)[k] == singleton_fields(d, 1)[k - base.len()]);
                assert(doc_fields(docs)[k].name == docs[docs.len() - 1][k - base.len()].0);
            }
        };
    }
}

proof fn lemma_doc_fields_contains(docs: Seq<Seq<(Seq<char>, ValueView)>>, f: FieldView)
    ensures
        doc_fields(docs).contains(f) <==> exists|i: int|
            0 <= i < docs.len() && singleton_fields(#[trigger] docs[i], 1).contains(f),
    decreases docs.len(),
{
    if docs.len() == 0 {
    } else {
        let pre = docs.drop_last();
        assert(forall|i: int| 0 <= i < pre.len() ==> pre[i] == docs[i]);
        lemma_doc_fields_contains(pre, f);
        let base = doc_fields(pre);
        let blk = singleton_fields(docs.last(), 1);
        assert(docs.last() == docs[docs.len() - 1]);
        if doc_fields(docs).contains(f) {
            let k = choose|k: int| 0 <= k < doc_fields(docs).len() && doc_fields(docs)[k] == f;
            if k < base.len() {
                assert(base[k] == f);
                assert(base.contains(f));
                let i = choose|i: int|
                    0 <= i < pre.len() && singleton_fields(#[trigger] pre[i], 1).contains(f);
                assert(singleton_fields(docs[i], 1).contains(f));
            } else {
                assert(blk[k - base.len()] == f);
                assert(blk.contains(f));
            }
        }
        if exists|i: int| 0 <= i < docs.len() && singleton_fields(#[trigger] docs[i], 1).contains(
            f,
        ) {
            let i = choose|i: int|
                0 <= i < docs.len() && singleton_fields(#[trigger] docs[i], 1).contains(f);
            if i < docs.len() - 1 {
                assert(singleton_fields(pre[i], 1).contains(f));
                assert(base.contains(f));
                let k = choose|k: int| 0 <= k < base.len() && base[k] == f;
                assert(doc_fields(docs)[k] == f);
            } else {
                let a = choose|a: int| 0 <= a < blk.len() && blk[a] == f;
                assert(doc_fields(docs)[base.len() + a] == f);
            }
        }
    }
}

/// Permuting the order in which documents (not values) are pushed does not
/// change the filterable and sortable sets, nor which fields are
/// searchable — only the searchable list's printed order.  Shown here for
/// samples in which no field path recurs across documents, so that every
/// field's records come from a single document; the two accumulations then
/// hold the same fields and the assembler is insensitive to their order.
pub proof fn lemma_document_order_irrelevant(
    docs1: Seq<Seq<(Seq<char>, ValueView)>>,
    docs2: Seq<Seq<(Seq<char>, ValueView)>>,
)
    requires
        paths_unique(docs1),
        paths_unique(docs2),
        forall|d: Seq<(Seq<char>, ValueView)>| docs1.contains(d) <==> docs2.contains(d),
    ensures
        assemble(push_docs(Seq::empty(), docs1)).filterable == assemble(
            push_docs(Seq::empty(), docs2),
        ).filterable,
        assemble(push_docs(Seq::empty(), docs1)).sortable == assemble(
            push_docs(Seq::empty(), docs2),
        ).sortable,
        forall|y: Seq<char>|
            assemble(push_docs(Seq::empty(), docs1)).searchable.contains(y) <==> assemble(
                push_docs(Seq::empty(), docs2),
            ).searchable.contains(y),
{
    lemma_push_docs_blocks(docs1);
    lemma_push_docs_blocks(docs2);
    assert forall|f: FieldView|
        doc_fields(docs1).contains(f) <==> doc_fields(docs2).contains(f) by {
        lemma_doc_fields_contains(docs1, f);
        lemma_doc_fields_contains(docs2, f);
        if exists|i: int| 0 <= i < docs1.len() && singleton_fields(
            #[trigger] docs1[i],
            1,
        ).contains(f) {
            let i = choose|i: int|
                0 <= i < docs1.len() && singleton_fields(#[trigger] docs1[i], 1).contains(f);
            assert(docs1.contains(docs1[i]));
            assert(docs2.contains(docs1[i]));
            let j = choose|j: int| 0 <= j < docs2.len() && docs2[j] == docs1[i];
            assert(singleton_fields(docs2[j], 1).contains(f));
        }
        if exists|i: int| 0 <= i < docs2.len() && singleton_fields(
            #[trigger] docs2[i],
            1,
        ).contains(f) {
            let i = choose|i: int|
                0 <= i < docs2.len() && singleton_fields(#[trigger] docs2[i], 1).contains(f);
            assert(docs2.contains(docs2[i]));
            assert(docs1.contains(docs2[i]));
            let j = choose|j: int| 0 <= j < docs1.len() && docs1[j] == docs2[i];
            assert(singleton_fields(docs1[j], 1).contains(f));
        }
    };
    lemma_field_order_irrelevant(doc_fields(docs1), doc_fields(docs2));
}

} // verus!
