//! The per-field statistics accumulator.
//!
//! Documents arrive flattened, one `(field path, value)` pair at a time.
//! Each field owns the set of distinct values seen for it, in first-seen
//! order, with an occurrence count and an entropy computed once at first
//! insertion.  `finish` scores every field and assembles the final
//! settings.

use vstd::prelude::*;
use crate::json::{JsonValue, ValueView};
use crate::score::{field_settings, field_total, ovs_view, score_field, value_entropy,
    value_entropy_exec, varr_len, FieldView, ObservedValue, ObservedView};
use crate::settings::{assemble, insert_sorted, strs_view, FinalSettings};

verus! {

/// The index of the first observed value equal to `v`, or `-1`.
pub open spec fn val_find(vals: Seq<ObservedView>, v: ValueView) -> int
    decreases vals.len(),
{
    if vals.len() == 0 {
        -1
    } else if vals[0].value == v {
        0
    } else {
        let r = val_find(vals.skip(1), v);
        if r < 0 {
            -1
        } else {
            r + 1
        }
    }
}

/// Characterization of [`val_find`]: it returns the first index holding a
/// structurally equal value, or `-1` when there is none.
pub proof fn lemma_val_find_char_pub(vals: Seq<ObservedView>, v: ValueView)
    ensures
        val_find(vals, v) == -1 ==> forall|i: int| 0 <= i < vals.len() ==> vals[i].value != v,
        val_find(vals, v) >= 0 ==> 0 <= val_find(vals, v) < vals.len() && vals[val_find(vals,
        v)].value == v && (forall|i: int| 0 <= i < val_find(vals, v) ==> vals[i].value != v),
{
    lemma_val_find_char(vals, v);
}

proof fn lemma_val_find_char(vals: Seq<ObservedView>, v: ValueView)
    ensures
        val_find(vals, v) == -1 ==> forall|i: int| 0 <= i < vals.len() ==> vals[i].value != v,
        val_find(vals, v) >= 0 ==> 0 <= val_find(vals, v) < vals.len() && vals[val_find(vals,
        v)].value == v && (forall|i: int| 0 <= i < val_find(vals, v) ==> vals[i].value != v),
    decreases vals.len(),
{
    if vals.len() == 0 {
    } else if vals[0].value == v {
    } else {
        let ts = vals.skip(1);
        lemma_val_find_char(ts, v);
        assert(forall|i: int| 0 <= i < ts.len() ==> ts[i] == vals[i + 1]);
        let rp = val_find(ts, v);
        if rp < 0 {
            assert forall|i: int| 0 <= i < vals.len() implies vals[i].value != v by {
                if i > 0 {
                    assert(ts[i - 1] == vals[i]);
                }
            };
        } else {
            let r = val_find(vals, v);
            assert(r == rp + 1);
            assert(vals[r] == ts[rp]);
            assert forall|i: int| 0 <= i < r implies vals[i].value != v by {
                if i > 0 {
                    assert(ts[i - 1] == vals[i]);
                }
            };
        }
    }
}

/// The observed values of a field after one more occurrence of `v`: the
/// matching record's count grows by one, or a fresh record is appended with
/// count one and a freshly computed entropy.
pub open spec fn push_value(vals: Seq<ObservedView>, v: ValueView) -> Seq<ObservedView> {
    let i = val_find(vals, v);
    if i >= 0 {
        vals.update(
            i,
            ObservedView { value: vals[i].value, count: vals[i].count + 1, entropy: vals[i].entropy },
        )
    } else {
        vals.push(ObservedView { value: v, count: 1, entropy: value_entropy(v) })
    }
}

/// The index of the field named `name`, or `-1`.
pub open spec fn fld_find(fields: Seq<FieldView>, name: Seq<char>) -> int
    decreases fields.len(),
{
    if fields.len() == 0 {
        -1
    } else if fields[0].name == name {
        0
    } else {
        let r = fld_find(fields.skip(1), name);
        if r < 0 {
            -1
        } else {
            r + 1
        }
    }
}

/// Characterization of [`fld_find`]: it returns the first index of a field
/// with the given name, or `-1` when there is none.
pub proof fn lemma_fld_find_char_pub(fields: Seq<FieldView>, name: Seq<char>)
    ensures
        fld_find(fields, name) == -1 ==> forall|i: int|
            0 <= i < fields.len() ==> fields[i].name != name,
        fld_find(fields, name) >= 0 ==> 0 <= fld_find(fields, name) < fields.len()
            && fields[fld_find(fields, name)].name == name && (forall|i: int|
            0 <= i < fld_find(fields, name) ==> fields[i].name != name),
{
    lemma_fld_find_char(fields, name);
}

proof fn lemma_fld_find_char(fields: Seq<FieldView>, name: Seq<char>)
    ensures
        fld_find(fields, name) == -1 ==> forall|i: int|
            0 <= i < fields.len() ==> fields[i].name != name,
        fld_find(fields, name) >= 0 ==> 0 <= fld_find(fields, name) < fields.len()
            && fields[fld_find(fields, name)].name == name && (forall|i: int|
            0 <= i < fld_find(fields, name) ==> fields[i].name != name),
    decreases fields.len(),
{
    if fields.len() == 0 {
    } else if fields[0].name == name {
    } else {
        let ts = fields.skip(1);
        lemma_fld_find_char(ts, name);
        assert(forall|i: int| 0 <= i < ts.len() ==> ts[i] == fields[i + 1]);
        let rp = fld_find(ts, name);
        if rp < 0 {
            assert forall|i: int| 0 <= i < fields.len() implies fields[i].name != name by {
                if i > 0 {
                    assert(ts[i - 1] == fields[i]);
                }
            };
        } else {
            let r = fld_find(fields, name);
            assert(r == rp + 1);
            assert(fields[r] == ts[rp]);
            assert forall|i: int| 0 <= i < r implies fields[i].name != name by {
                if i > 0 {
                    assert(ts[i - 1] == fields[i]);
                }
            };
        }
    }
}

/// The accumulator state after one more `(name, v)` observation.
pub open spec fn push_field(fields: Seq<FieldView>, name: Seq<char>, v: ValueView) -> Seq<
    FieldView,
> {
    let i = fld_find(fields, name);
    if i >= 0 {
        fields.update(
            i,
            FieldView { name: fields[i].name, values: push_value(fields[i].values, v) },
        )
    } else {
        fields.push(FieldView { name: name, values: push_value(Seq::empty(), v) })
    }
}

/// Well-formedness of one field's records, relative to the number of
/// observations pushed so far.
pub open spec fn field_wf(f: FieldView, pushed: nat) -> bool {
    &&& f.values.len() <= pushed
    &&& field_total(f.values) <= pushed
    &&& (forall|k: int, l: int|
        0 <= k < l < f.values.len() ==> f.values[k].value != f.values[l].value)
    &&& (forall|k: int|
        0 <= k < f.values.len() ==> 1 <= (#[trigger] f.values[k]).count <= pushed)
    &&& (forall|k: int| 0 <= k < f.values.len() ==> varr_len(#[trigger] f.values[k].value)
        <= 0xFFFF_FFFF)
    &&& (forall|k: int|
        0 <= k < f.values.len() ==> (#[trigger] f.values[k]).entropy == value_entropy(
            f.values[k].value,
        ))
}

/// Well-formedness of the whole accumulator.
pub open spec fn acc_wf(fields: Seq<FieldView>, pushed: nat) -> bool {
    &&& pushed <= 0xFFFF_FFFF
    &&& (forall|i: int, j: int|
        0 <= i < j < fields.len() ==> fields[i].name != fields[j].name)
    &&& (forall|i: int| 0 <= i < fields.len() ==> field_wf(#[trigger] fields[i], pushed))
}

struct FieldStats {
    name: String,
    values: Vec<ObservedValue>,
}

/// The accumulator: per-field value statistics for a document sample, in
/// field discovery order.
pub struct FieldAccumulator {
    fields: Vec<FieldStats>,
    pushed: Ghost<nat>,
}

impl View for FieldAccumulator {
    type V = Seq<FieldView>;

    closed spec fn view(&self) -> Seq<FieldView> {
        self.fields@.map_values(
            |f: FieldStats| FieldView { name: f.name@, values: ovs_view(f.values@) },
        )
    }
}

proof fn lemma_field_total_bump(vals: Seq<ObservedView>, k: int)
    requires
        0 <= k < vals.len(),
    ensures
        field_total(
            vals.update(
                k,
                ObservedView {
                    value: vals[k].value,
                    count: vals[k].count + 1,
                    entropy: vals[k].entropy,
                },
            ),
        ) == field_total(vals) + 1,
    decreases vals.len(),
{
    let t = vals.update(
        k,
        ObservedView { value: vals[k].value, count: vals[k].count + 1, entropy: vals[k].entropy },
    );
    if k == vals.len() - 1 {
        assert(t.drop_last() =~= vals.drop_last());
    } else {
        assert(t.drop_last() =~= vals.drop_last().update(
            k,
            ObservedView {
                value: vals[k].value,
                count: vals[k].count + 1,
                entropy: vals[k].entropy,
            },
        ));
        lemma_field_total_bump(vals.drop_last(), k);
    }
}

impl FieldAccumulator {
    /// How many observations have been pushed so far (ghost bookkeeping for
    /// the fixed-width arithmetic bounds).
    pub closed spec fn pushed_count(&self) -> nat {
        self.pushed@
    }

    /// The accumulator is well formed.
    pub open spec fn wf(&self) -> bool {
        acc_wf(self@, self.pushed_count())
    }

    /// An empty accumulator.
    pub fn new() -> (r: FieldAccumulator)
        ensures
            r.wf(),
            r@ == Seq::<FieldView>::empty(),
            r.pushed_count() == 0,
    {
        let r = FieldAccumulator { fields: Vec::new(), pushed: Ghost(0) };
        proof {
            assert(r@ =~= Seq::<FieldView>::empty());
        }
        r
    }

    /// Record one flattened `(field, value)` observation: the matching
    /// observed value's count grows by one, or the value is inserted with
    /// count one and its entropy, exactly as [`push_field`] specifies.
    pub fn push(&mut self, field: String, value: JsonValue)
        requires
            old(self).wf(),
            old(self).pushed_count() < 0xFFFF_FFFF,
            varr_len(value@) <= 0xFFFF_FFFF,
        ensures
            final(self).wf(),
            final(self)@ == push_field(old(self)@, field@, value@),
            final(self).pushed_count() == old(self).pushed_count() + 1,
    {
        let ghost oldview = self@;
        let ghost p0 = self.pushed@;
        proof {
            lemma_fld_find_char(oldview, field@);
            assert(oldview.len() == self.fields@.len());
        }
        proof {
            self.pushed@ = p0 + 1;
        }
        let fidx = find_field_index(&self.fields, &field);
        match fidx {
            Some(j) => {
                let ghost fv = oldview[j as int];
                proof {
                    assert(fld_find(oldview, field@) == j as int);
                    lemma_val_find_char(fv.values, value@);
                }
                let mut fs = self.fields.remove(j);
                proof {
                    assert(fv.values == ovs_view(fs.values@));
                }
                let vidx = find_value_index(&fs.values, &value);
                proof {
                    assert(forall|x: int|
                        0 <= x < fs.values@.len() ==> fv.values[x] == #[trigger] fs.values@[x]@);
                }
                match vidx {
                    Some(k) => {
                        proof {
                            assert(fv.values[k as int].value == value@);
                            assert(val_find(fv.values, value@) == k as int);
                            lemma_field_total_bump(fv.values, k as int);
                        }
                        let ov = fs.values.remove(k);
                        let bumped = ObservedValue {
                            value: ov.value,
                            count: ov.count + 1,
                            entropy: ov.entropy,
                        };
                        fs.values.insert(k, bumped);
                        proof {
                            assert(ovs_view(fs.values@) =~= push_value(fv.values, value@));
                        }
                    },
                    None => {
                        proof {
                            assert(val_find(fv.values, value@) == -1);
                        }
                        let e = value_entropy_exec(&value);
                        fs.values.push(ObservedValue { value: value, count: 1, entropy: e });
                        proof {
                            assert(ovs_view(fs.values@) =~= push_value(fv.values, value@));
                        }
                    },
                }
                self.fields.insert(j, fs);
                proof {
                    assert(self@ =~= push_field(oldview, field@, value@));
                    lemma_push_wf(oldview, field@, value@, p0);
                }
            },
            None => {
                proof {
                    assert(fld_find(oldview, field@) == -1);
                }
                let e = value_entropy_exec(&value);
                let mut vs: Vec<ObservedValue> = Vec::new();
                vs.push(ObservedValue { value: value, count: 1, entropy: e });
                let ghost vsv = ovs_view(vs@);
                let fs = FieldStats { name: field, values: vs };
                self.fields.push(fs);
                proof {
                    assert(vsv =~= push_value(Seq::empty(), value@));
                    assert(self@ =~= push_field(oldview, field@, value@));
                    lemma_push_wf(oldview, field@, value@, p0);
                }
            },
        }
    }

    /// Score every field and assemble the final settings, exactly as
    /// [`assemble`] specifies over the accumulated state.
    #[verifier::loop_isolation(false)]
    pub fn finish(self) -> (r: FinalSettings)
        requires
            self.wf(),
        ensures
            r@ == assemble(self@),
    {
        let ghost fields = self@;
        let mut out = FinalSettings {
            searchable_attributes: Vec::new(),
            filterable_attributes: Vec::new(),
            sortable_attributes: Vec::new(),
            displayed_attributes: Vec::new(),
        };
        let n = self.fields.len();
        proof {
            assert(fields.len() == n);
            assert(out@ =~= assemble(fields.subrange(0, 0)));
        }
        let mut i: usize = 0;
        while i < n
            invariant
                i <= n,
                self.wf(),
                fields == self@,
                n == self.fields@.len(),
                out@ == assemble(fields.subrange(0, i as int)),
            decreases n - i,
        {
            let ghost pre = fields.subrange(0, i as int);
            let ghost post = fields.subrange(0, i as int + 1);
            proof {
                assert(post.drop_last() =~= pre);
                assert(post.last() == fields[i as int]);
                assert(field_wf(fields[i as int], self.pushed_count()));
                assert(fields[i as int].values == ovs_view(self.fields@[i as int].values@));
                assert forall|k: int|
                    0 <= k < self.fields@[i as int].values@.len() implies 1 <= (
                #[trigger] self.fields@[i as int].values@[k]).count <= 0xFFFF_FFFF by {
                    assert(fields[i as int].values[k] == self.fields@[i as int].values@[k]@);
                };
                assert forall|k: int|
                    0 <= k < self.fields@[i as int].values@.len() implies varr_len(
                    #[trigger] self.fields@[i as int].values@[k]@.value) <= 0xFFFF_FFFF by {
                    assert(fields[i as int].values[k] == self.fields@[i as int].values@[k]@);
                };
            }
            let fs = &self.fields[i];
            let st = score_field(fs.name.as_str(), &fs.values);
            proof {
                assert(st.0 == field_settings(fields[i as int].name, fields[i as int].values).0);
            }
            if st.0 {
                out.searchable_attributes.push(fs.name.clone());
                proof {
                    assert(strs_view(out.searchable_attributes@) =~= assemble(pre).searchable.push(
                        fields[i as int].name,
                    ));
                }
            }
            if st.1 {
                insert_sorted(&mut out.filterable_attributes, fs.name.clone());
            }
            if st.2 {
                insert_sorted(&mut out.sortable_attributes, fs.name.clone());
            }
            proof {
                assert(out@ =~= assemble(post));
            }
            i = i + 1;
        }
        proof {
            assert(fields.subrange(0, n as int) =~= fields);
        }
        out
    }
}

proof fn lemma_push_wf(fields: Seq<FieldView>, name: Seq<char>, v: ValueView, pushed: nat)
    requires
        acc_wf(fields, pushed),
        pushed < 0xFFFF_FFFF,
        varr_len(v) <= 0xFFFF_FFFF,
    ensures
        acc_wf(push_field(fields, name, v), pushed + 1),
{
    lemma_fld_find_char(fields, name);
    let r = push_field(fields, name, v);
    let i = fld_find(fields, name);
    if i >= 0 {
        let f = fields[i];
        lemma_val_find_char(f.values, v);
        let nf = FieldView { name: f.name, values: push_value(f.values, v) };
        let k = val_find(f.values, v);
        if k >= 0 {
            lemma_field_total_bump(f.values, k);
            assert(field_wf(nf, pushed + 1));
        } else {
            assert(nf.values =~= f.values.push(
                ObservedView { value: v, count: 1, entropy: value_entropy(v) },
            ));
            assert(field_total(nf.values) == field_total(f.values) + 1) by {
                assert(nf.values.drop_last() =~= f.values);
            };
            assert(field_wf(nf, pushed + 1));
        }
        assert forall|a: int| 0 <= a < r.len() implies field_wf(#[trigger] r[a], pushed + 1) by {
            if a != i {
                assert(r[a] == fields[a]);
                assert(field_wf(fields[a], pushed));
            }
        };
        assert forall|a: int, b: int| 0 <= a < b < r.len() implies r[a].name != r[b].name by {
            assert(r[a].name == fields[a].name && r[b].name == fields[b].name);
        };
    } else {
        let nf = FieldView { name: name, values: push_value(Seq::empty(), v) };
        assert(val_find(Seq::empty(), v) == -1);
        let ov = ObservedView { value: v, count: 1, entropy: value_entropy(v) };
        let single = Seq::<ObservedView>::empty().push(ov);
        assert(nf.values =~= single);
        assert(field_total(single) == 1) by {
            assert(single.drop_last() =~= Seq::<ObservedView>::empty());
            assert(single.last() == ov);
            assert(field_total(Seq::<ObservedView>::empty()) == 0);
        };
        assert(field_wf(nf, pushed + 1));
        assert forall|a: int| 0 <= a < r.len() implies field_wf(#[trigger] r[a], pushed + 1) by {
            if a < fields.len() {
                assert(r[a] == fields[a]);
                assert(field_wf(fields[a], pushed));
            } else {
                assert(r[a] == nf);
            }
        };
        assert forall|a: int, b: int| 0 <= a < b < r.len() implies r[a].name != r[b].name by {
            if b < fields.len() {
            } else {
                assert(r[b] == nf);
                assert(fields[a].name != name);
            }
        };
    }
}

/// The index of the field with the given name, if any.
fn find_field_index(fields: &Vec<FieldStats>, name: &String) -> (r: Option<usize>)
    ensures
        match r {
            Some(j) => j < fields@.len() && fields@[j as int].name@ == name@ && (forall|k: int|
                0 <= k < j ==> fields@[k].name@ != name@),
            None => forall|k: int| 0 <= k < fields@.len() ==> fields@[k].name@ != name@,
        },
{
    let mut j: usize = 0;
    let mut res: Option<usize> = None;
    while j < fields.len()
        invariant
            j <= fields.len(),
            match res {
                Some(jj) => jj < fields@.len() && fields@[jj as int].name@ == name@ && (forall|
                    k: int,
                |
                    0 <= k < jj ==> fields@[k].name@ != name@),
                None => forall|k: int| 0 <= k < j ==> fields@[k].name@ != name@,
            },
        decreases fields.len() - j,
    {
        if res.is_none() && fields[j].name == *name {
            res = Some(j);
        }
        j = j + 1;
    }
    res
}

/// The index of the observed value structurally equal to `v`, if any.
fn find_value_index(vals: &Vec<ObservedValue>, v: &JsonValue) -> (r: Option<usize>)
    ensures
        match r {
            Some(j) => j < vals@.len() && vals@[j as int].value@ == v@ && (forall|k: int|
                0 <= k < j ==> vals@[k].value@ != v@),
            None => forall|k: int| 0 <= k < vals@.len() ==> vals@[k].value@ != v@,
        },
{
    let mut j: usize = 0;
    let mut res: Option<usize> = None;
    while j < vals.len()
        invariant
            j <= vals.len(),
            match res {
                Some(jj) => jj < vals@.len() && vals@[jj as int].value@ == v@ && (forall|k: int|
                    0 <= k < jj ==> vals@[k].value@ != v@),
                None => forall|k: int| 0 <= k < j ==> vals@[k].value@ != v@,
            },
        decreases vals.len() - j,
    {
        if res.is_none() && crate::json::value_eq(&vals[j].value, v) {
            res = Some(j);
        }
        j = j + 1;
    }
    res
}

} // verus!
