//! The final settings structure and its assembler.
//!
//! Searchable fields keep the order in which they were first seen;
//! filterable and sortable fields are emitted as lexicographically sorted
//! sets without duplicates; the displayed list is a reserved extension point
//! that no scoring rule populates.

use vstd::prelude::*;
use crate::score::{field_settings, FieldView};

verus! {

/// The settings recommendation for a document sample.
#[derive(Debug)]
pub struct FinalSettings {
    /// Fields worth full-text search, in field discovery order.
    pub searchable_attributes: Vec<String>,
    /// Fields worth filtering on, sorted and duplicate-free.
    pub filterable_attributes: Vec<String>,
    /// Fields worth sorting on, sorted and duplicate-free.
    pub sortable_attributes: Vec<String>,
    /// Reserved: no rule assigns the displayed capability.
    pub displayed_attributes: Vec<String>,
}

/// The mathematical view of [`FinalSettings`].
#[verifier::ext_equal]
pub struct SettingsView {
    pub searchable: Seq<Seq<char>>,
    pub filterable: Seq<Seq<char>>,
    pub sortable: Seq<Seq<char>>,
    pub displayed: Seq<Seq<char>>,
}

/// The view of a sequence of strings.
pub open spec fn strs_view(s: Seq<String>) -> Seq<Seq<char>> {
    s.map_values(|x: String| x@)
}

impl View for FinalSettings {
    type V = SettingsView;

    open spec fn view(&self) -> SettingsView {
        SettingsView {
            searchable: strs_view(self.searchable_attributes@),
            filterable: strs_view(self.filterable_attributes@),
            sortable: strs_view(self.sortable_attributes@),
            displayed: strs_view(self.displayed_attributes@),
        }
    }
}

/// Strict lexicographic order on character sequences, by code point; the
/// order `str` comparison and a sorted set of strings would use.
pub open spec fn lex_lt(a: Seq<char>, b: Seq<char>) -> bool
    decreases a.len(),
{
    if b.len() == 0 {
        false
    } else if a.len() == 0 {
        true
    } else if a[0] != b[0] {
        (a[0] as u32) < (b[0] as u32)
    } else {
        lex_lt(a.skip(1), b.skip(1))
    }
}

proof fn lemma_char_codepoints(x: char, y: char)
    ensures
        x != y ==> x as u32 != y as u32,
{
}

/// Exactly one of `a < b`, `a == b`, `b < a` holds.
pub proof fn lemma_lex_trichotomy(a: Seq<char>, b: Seq<char>)
    ensures
        lex_lt(a, b) || lex_lt(b, a) || a == b,
        lex_lt(a, b) ==> !lex_lt(b, a) && a != b,
        lex_lt(b, a) ==> !lex_lt(a, b) && a != b,
    decreases a.len(),
{
    if a.len() == 0 || b.len() == 0 {
        if a.len() == 0 && b.len() == 0 {
            assert(a =~= b);
        }
    } else if a[0] != b[0] {
        lemma_char_codepoints(a[0], b[0]);
    } else {
        lemma_lex_trichotomy(a.skip(1), b.skip(1));
        if a.skip(1) == b.skip(1) && a[0] == b[0] {
            assert(a =~= b) by {
                assert(forall|i: int| 1 <= i < a.len() ==> a[i] == a.skip(1)[i - 1]);
            };
        }
        if a == b {
            assert(a.skip(1) =~= b.skip(1));
        }
    }
}

/// Insertion into a sorted duplicate-free sequence.
pub open spec fn sorted_insert(l: Seq<Seq<char>>, x: Seq<char>) -> Seq<Seq<char>>
    decreases l.len(),
{
    if l.len() == 0 {
        seq![x]
    } else if lex_lt(x, l[0]) {
        seq![x] + l
    } else if x == l[0] {
        l
    } else {
        seq![l[0]] + sorted_insert(l.skip(1), x)
    }
}

/// A strictly sorted (hence duplicate-free) sequence.
pub open spec fn strictly_sorted(l: Seq<Seq<char>>) -> bool {
    forall|i: int, j: int| 0 <= i < j < l.len() ==> lex_lt(l[i], l[j])
}

pub proof fn lemma_sorted_insert_sorted(l: Seq<Seq<char>>, x: Seq<char>)
    requires
        strictly_sorted(l),
    ensures
        strictly_sorted(sorted_insert(l, x)),
        sorted_insert(l, x).contains(x),
        forall|y: Seq<char>|
            sorted_insert(l, x).contains(y) <==> (l.contains(y) || y == x),
    decreases l.len(),
{
    let r = sorted_insert(l, x);
    if l.len() == 0 {
        assert forall|y: Seq<char>| r.contains(y) implies (l.contains(y) || y == x) by {
            let k = choose|k: int| 0 <= k < r.len() && r[k] == y;
            assert(r[0] == x);
        };
        assert(r.contains(x)) by {
            assert(r[0] == x);
        };
    } else if lex_lt(x, l[0]) {
        assert(r[0] == x);
        assert forall|i: int, j: int| 0 <= i < j < r.len() implies lex_lt(r[i], r[j]) by {
            if i == 0 {
                assert(r[j] == l[j - 1]);
                if j > 1 {
                    assert(lex_lt(l[0], l[j - 1]));
                    lemma_lex_transitive(x, l[0], l[j - 1]);
                }
            } else {
                assert(r[i] == l[i - 1] && r[j] == l[j - 1]);
            }
        };
        assert forall|y: Seq<char>| r.contains(y) implies (l.contains(y) || y == x) by {
            let k = choose|k: int| 0 <= k < r.len() && r[k] == y;
            if k > 0 {
                assert(l[k - 1] == y);
            }
        };
        assert forall|y: Seq<char>| (l.contains(y) || y == x) implies r.contains(y) by {
            if l.contains(y) {
                let k = choose|k: int| 0 <= k < l.len() && l[k] == y;
                assert(r[k + 1] == y);
            } else {
                assert(r[0] == x);
            }
        };
    } else if x == l[0] {
        assert(r[0] == x);
        assert forall|y: Seq<char>| (l.contains(y) || y == x) implies r.contains(y) by {
            if y == x {
                assert(l[0] == y);
            }
        };
    } else {
        lemma_lex_trichotomy(x, l[0]);
        assert(lex_lt(l[0], x));
        let ls = l.skip(1);
        assert(forall|i: int| 0 <= i < ls.len() ==> ls[i] == l[i + 1]);
        assert(strictly_sorted(ls));
        lemma_sorted_insert_sorted(ls, x);
        let rs = sorted_insert(ls, x);
        assert(r =~= seq![l[0]] + rs);
        assert forall|i: int, j: int| 0 <= i < j < r.len() implies lex_lt(r[i], r[j]) by {
            if i == 0 {
                assert(r[j] == rs[j - 1]);
                assert(rs.contains(rs[j - 1]));
                if ls.contains(rs[j - 1]) {
                    let k = choose|k: int| 0 <= k < ls.len() && ls[k] == rs[j - 1];
                    assert(lex_lt(l[0], l[k + 1]));
                } else {
                    assert(rs[j - 1] == x);
                }
            } else {
                assert(r[i] == rs[i - 1] && r[j] == rs[j - 1]);
            }
        };
        assert forall|y: Seq<char>| r.contains(y) implies (l.contains(y) || y == x) by {
            let k = choose|k: int| 0 <= k < r.len() && r[k] == y;
            if k == 0 {
                assert(l[0] == y);
            } else {
                assert(rs[k - 1] == y);
                assert(rs.contains(y));
                if ls.contains(y) {
                    let m = choose|m: int| 0 <= m < ls.len() && ls[m] == y;
                    assert(l[m + 1] == y);
                }
            }
        };
        assert forall|y: Seq<char>| (l.contains(y) || y == x) implies r.contains(y) by {
            if l.contains(y) {
                let k = choose|k: int| 0 <= k < l.len() && l[k] == y;
                if k == 0 {
                    assert(r[0] == y);
                } else {
                    assert(ls[k - 1] == y);
                    assert(ls.contains(y));
                    assert(rs.contains(y));
                    let m = choose|m: int| 0 <= m < rs.len() && rs[m] == y;
                    assert(r[m + 1] == y);
                }
            } else {
                assert(rs.contains(x));
                let m = choose|m: int| 0 <= m < rs.len() && rs[m] == x;
                assert(r[m + 1] == x);
            }
        };
        assert(r.contains(x)) by {
            assert(rs.contains(x));
            let m = choose|m: int| 0 <= m < rs.len() && rs[m] == x;
            assert(r[m + 1] == x);
        };
    }
}

pub proof fn lemma_lex_transitive(a: Seq<char>, b: Seq<char>, c: Seq<char>)
    requires
        lex_lt(a, b),
        lex_lt(b, c),
    ensures
        lex_lt(a, c),
    decreases a.len() + b.len() + c.len(),
{
    if b.len() == 0 {
    } else if a.len() == 0 {
        assert(c.len() > 0);
    } else {
        assert(c.len() > 0);
        if a[0] != b[0] {
            if b[0] != c[0] {
            }
        } else {
            if b[0] != c[0] {
            } else {
                lemma_lex_transitive(a.skip(1), b.skip(1), c.skip(1));
            }
        }
    }
}

/// Two strictly sorted sequences with the same members are equal.
pub proof fn lemma_sorted_unique_by_contains(l1: Seq<Seq<char>>, l2: Seq<Seq<char>>)
    requires
        strictly_sorted(l1),
        strictly_sorted(l2),
        forall|y: Seq<char>| l1.contains(y) <==> l2.contains(y),
    ensures
        l1 == l2,
    decreases l1.len(),
{
    if l1.len() == 0 {
        if l2.len() > 0 {
            assert(l2.contains(l2[0]));
            assert(l1.contains(l2[0]));
            assert(false);
        }
        assert(l1 =~= l2);
    } else if l2.len() == 0 {
        assert(l1.contains(l1[0]));
        assert(l2.contains(l1[0]));
        assert(false);
    } else {
        let a = l1[0];
        let b = l2[0];
        assert(l2.contains(a)) by {
            assert(l1.contains(a));
        };
        assert(l1.contains(b)) by {
            assert(l2.contains(b));
        };
        lemma_lex_trichotomy(a, b);
        if lex_lt(a, b) {
            let m = choose|m: int| 0 <= m < l2.len() && l2[m] == a;
            if m == 0 {
                assert(a == b);
            } else {
                assert(lex_lt(b, l2[m]));
                assert(lex_lt(b, a));
            }
            assert(false);
        } else if lex_lt(b, a) {
            let k = choose|k: int| 0 <= k < l1.len() && l1[k] == b;
            if k == 0 {
                assert(a == b);
            } else {
                assert(lex_lt(a, l1[k]));
                assert(lex_lt(a, b));
            }
            assert(false);
        }
        assert(a == b);
        let t1 = l1.skip(1);
        let t2 = l2.skip(1);
        assert(forall|i: int| 0 <= i < t1.len() ==> t1[i] == l1[i + 1]);
        assert(forall|i: int| 0 <= i < t2.len() ==> t2[i] == l2[i + 1]);
        assert(strictly_sorted(t1));
        assert(strictly_sorted(t2));
        assert forall|y: Seq<char>| t1.contains(y) <==> t2.contains(y) by {
            lemma_tail_contains(l1, y);
            lemma_tail_contains(l2, y);
        };
        lemma_sorted_unique_by_contains(t1, t2);
        assert(l1.len() == l2.len());
        assert forall|i: int| 0 <= i < l1.len() implies l1[i] == l2[i] by {
            if i > 0 {
                assert(l1[i] == t1[i - 1]);
                assert(l2[i] == t2[i - 1]);
            }
        };
        assert(l1 =~= l2);
    }
}

proof fn lemma_tail_contains(l: Seq<Seq<char>>, y: Seq<char>)
    requires
        strictly_sorted(l),
        l.len() > 0,
    ensures
        l.skip(1).contains(y) <==> (l.contains(y) && y != l[0]),
{
    let t = l.skip(1);
    assert(forall|i: int| 0 <= i < t.len() ==> t[i] == l[i + 1]);
    if t.contains(y) {
        let k = choose|k: int| 0 <= k < t.len() && t[k] == y;
        assert(l[k + 1] == y);
        assert(l.contains(y));
        assert(lex_lt(l[0], y));
        lemma_lex_trichotomy(l[0], y);
    }
    if l.contains(y) && y != l[0] {
        let k = choose|k: int| 0 <= k < l.len() && l[k] == y;
        assert(k > 0);
        assert(t[k - 1] == y);
        assert(t.contains(y));
    }
}

/// The settings assembled from the fields in discovery order: searchable
/// keeps that order, filterable and sortable are collected as sorted sets,
/// displayed stays empty.
pub open spec fn assemble(fields: Seq<FieldView>) -> SettingsView
    decreases fields.len(),
{
    if fields.len() == 0 {
        SettingsView {
            searchable: Seq::empty(),
            filterable: Seq::empty(),
            sortable: Seq::empty(),
            displayed: Seq::empty(),
        }
    } else {
        let prev = assemble(fields.drop_last());
        let f = fields.last();
        let st = field_settings(f.name, f.values);
        SettingsView {
            searchable: if st.0 {
                prev.searchable.push(f.name)
            } else {
                prev.searchable
            },
            filterable: if st.1 {
                sorted_insert(prev.filterable, f.name)
            } else {
                prev.filterable
            },
            sortable: if st.2 {
                sorted_insert(prev.sortable, f.name)
            } else {
                prev.sortable
            },
            displayed: prev.displayed,
        }
    }
}

/// Strict lexicographic comparison of two strings, by code point.
pub fn str_lt(a: &str, b: &str) -> (r: bool)
    ensures
        r == lex_lt(a@, b@),
{
    let na = a.unicode_len();
    let nb = b.unicode_len();
    let mut i: usize = 0;
    proof {
        assert(a@.skip(0) =~= a@);
        assert(b@.skip(0) =~= b@);
    }
    loop
        invariant
            i <= na,
            i <= nb,
            na == a@.len(),
            nb == b@.len(),
            lex_lt(a@, b@) == lex_lt(a@.skip(i as int), b@.skip(i as int)),
        decreases na - i,
    {
        if i >= nb {
            proof {
                assert(b@.skip(i as int).len() == 0);
            }
            return false;
        }
        if i >= na {
            proof {
                assert(a@.skip(i as int).len() == 0);
                assert(b@.skip(i as int).len() > 0);
            }
            return true;
        }
        let ca = a.get_char(i);
        let cb = b.get_char(i);
        proof {
            let sa = a@.skip(i as int);
            let sb = b@.skip(i as int);
            assert(sa[0] == a@[i as int] && sb[0] == b@[i as int]);
            assert(sa.skip(1) =~= a@.skip(i as int + 1));
            assert(sb.skip(1) =~= b@.skip(i as int + 1));
        }
        if ca as u32 != cb as u32 {
            return (ca as u32) < (cb as u32);
        }
        proof {
            assert(ca == cb);
        }
        i = i + 1;
    }
}

/// Insert a field name into a sorted duplicate-free list, keeping it sorted
/// and duplicate-free, exactly as [`sorted_insert`] specifies.
#[verifier::loop_isolation(false)]
pub fn insert_sorted(list: &mut Vec<String>, x: String)
    ensures
        strs_view(final(list)@) == sorted_insert(strs_view(old(list)@), x@),
{
    let ghost l = strs_view(list@);
    let mut p: usize = 0;
    while p < list.len() && str_lt(list[p].as_str(), x.as_str())
        invariant
            p <= list@.len(),
            l == strs_view(list@),
            forall|i: int| 0 <= i < p ==> lex_lt(l[i], x@),
        decreases list@.len() - p,
    {
        p = p + 1;
    }
    proof {
        lemma_sorted_insert_at(l, x@, p as int);
    }
    if p < list.len() && list[p] == x {
        proof {
            assert(strs_view(list@) =~= sorted_insert(l, x@));
        }
        return;
    }
    list.insert(p, x);
    proof {
        assert(strs_view(list@) =~= l.subrange(0, p as int).push(x@) + l.subrange(p as int,
            l.len() as int)) by {
            assert(list@.len() == l.len() + 1);
        };
        assert(strs_view(list@) =~= sorted_insert(l, x@));
    }
}

proof fn lemma_sorted_insert_at(l: Seq<Seq<char>>, x: Seq<char>, p: int)
    requires
        0 <= p <= l.len(),
        forall|i: int| 0 <= i < p ==> lex_lt(l[i], x),
        p < l.len() ==> !lex_lt(l[p], x),
    ensures
        sorted_insert(l, x) == if p < l.len() && l[p] == x {
            l
        } else {
            l.subrange(0, p).push(x) + l.subrange(p, l.len() as int)
        },
    decreases l.len(),
{
    if l.len() == 0 {
        assert(sorted_insert(l, x) =~= l.subrange(0, p).push(x) + l.subrange(p, l.len() as int));
    } else if p == 0 {
        lemma_lex_trichotomy(x, l[0]);
        if lex_lt(x, l[0]) {
            assert(seq![x] + l =~= l.subrange(0, 0).push(x) + l.subrange(0, l.len() as int));
        } else {
            assert(x == l[0]);
        }
    } else {
        assert(lex_lt(l[0], x));
        lemma_lex_trichotomy(x, l[0]);
        assert(!lex_lt(x, l[0]) && x != l[0]);
        let ls = l.skip(1);
        assert(forall|i: int| 0 <= i < ls.len() ==> ls[i] == l[i + 1]);
        lemma_sorted_insert_at(ls, x, p - 1);
        if p < l.len() && l[p] == x {
            assert(ls[p - 1] == x);
            assert(sorted_insert(l, x) =~= seq![l[0]] + ls);
            assert(seq![l[0]] + ls =~= l);
        } else {
            assert(sorted_insert(l, x) =~= seq![l[0]] + (ls.subrange(0, p - 1).push(x)
                + ls.subrange(p - 1, ls.len() as int)));
            assert(seq![l[0]] + (ls.subrange(0, p - 1).push(x) + ls.subrange(p - 1,
                ls.len() as int)) =~= l.subrange(0, p).push(x) + l.subrange(p, l.len() as int));
        }
    }
}

} // verus!
