//! Ingestion decisions for a stream of parsed top-level JSON values.
//!
//! The input boundary hands over either one array of documents or a
//! whitespace-concatenated stream of documents, already flattened to the
//! crate's value model.  An empty stream is `EmptyInput`; an array element
//! or stream element that is not an object is `InvalidDocument` and aborts
//! the whole batch.

use vstd::prelude::*;
use crate::accumulator::{push_field, FieldAccumulator};
use crate::json::{clone_value, JsonValue, ValueView};
use crate::score::varr_len;
use crate::settings::{assemble, FinalSettings, SettingsView};

verus! {

/// A flattened document: field paths with their values, in flattening
/// order.
pub type Document = Vec<(String, JsonValue)>;

/// One element of a top-level array.
pub enum ArrayEntry {
    Object(Document),
    /// A parsed value that is not a JSON object.
    Other,
}

/// One parsed top-level value of the input stream.
pub enum InputValue {
    Object(Document),
    Array(Vec<ArrayEntry>),
    /// A parsed value that is neither an object nor an array.
    Other,
}

/// Why no settings could be inferred.
#[derive(Debug, PartialEq, Eq, Clone, Copy)]
pub enum GuessError {
    /// The input stream held no parseable JSON value at all.
    EmptyInput,
    /// A top-level array element or stream element is not a JSON object.
    InvalidDocument,
}

/// The view of a document: field paths and value views, in order.
pub open spec fn doc_view(d: Seq<(String, JsonValue)>) -> Seq<(Seq<char>, ValueView)> {
    d.map_values(|p: (String, JsonValue)| (p.0@, p.1@))
}

/// The mathematical view of an [`ArrayEntry`].
#[verifier::ext_equal]
pub enum ArrayEntryView {
    Object(Seq<(Seq<char>, ValueView)>),
    Other,
}

/// The mathematical view of an [`InputValue`].
#[verifier::ext_equal]
pub enum InputView {
    Object(Seq<(Seq<char>, ValueView)>),
    Array(Seq<ArrayEntryView>),
    Other,
}

impl View for ArrayEntry {
    type V = ArrayEntryView;

    open spec fn view(&self) -> ArrayEntryView {
        match self {
            ArrayEntry::Object(d) => ArrayEntryView::Object(doc_view(d@)),
            ArrayEntry::Other => ArrayEntryView::Other,
        }
    }
}

impl View for InputValue {
    type V = InputView;

    open spec fn view(&self) -> InputView {
        match self {
            InputValue::Object(d) => InputView::Object(doc_view(d@)),
            InputValue::Array(es) => InputView::Array(es@.map_values(|e: ArrayEntry| e@)),
            InputValue::Other => InputView::Other,
        }
    }
}

/// The views of a stream of top-level values.
pub open spec fn stream_view(vs: Seq<InputValue>) -> Seq<InputView> {
    vs.map_values(|v: InputValue| v@)
}

/// The accumulator state after pushing every pair of one document, in
/// order.
pub open spec fn push_doc(
    fields: Seq<crate::score::FieldView>,
    d: Seq<(Seq<char>, ValueView)>,
) -> Seq<crate::score::FieldView>
    decreases d.len(),
{
    if d.len() == 0 {
        fields
    } else {
        push_field(push_doc(fields, d.drop_last()), d.last().0, d.last().1)
    }
}

/// The accumulator state after pushing a sequence of documents, in order.
pub open spec fn push_docs(
    fields: Seq<crate::score::FieldView>,
    docs: Seq<Seq<(Seq<char>, ValueView)>>,
) -> Seq<crate::score::FieldView>
    decreases docs.len(),
{
    if docs.len() == 0 {
        fields
    } else {
        push_doc(push_docs(fields, docs.drop_last()), docs.last())
    }
}

/// Every array element is a document.
pub open spec fn entries_ok(es: Seq<ArrayEntryView>) -> bool {
    forall|i: int| 0 <= i < es.len() ==> (#[trigger] es[i]) is Object
}

/// The documents of an all-object array.
pub open spec fn entry_docs(es: Seq<ArrayEntryView>) -> Seq<Seq<(Seq<char>, ValueView)>> {
    es.map_values(
        |e: ArrayEntryView|
            match e {
                ArrayEntryView::Object(d) => d,
                ArrayEntryView::Other => Seq::empty(),
            },
    )
}

/// Every stream value is a document.
pub open spec fn stream_ok(vs: Seq<InputView>) -> bool {
    forall|i: int| 0 <= i < vs.len() ==> (#[trigger] vs[i]) is Object
}

/// The documents of an all-object stream.
pub open spec fn stream_docs(vs: Seq<InputView>) -> Seq<Seq<(Seq<char>, ValueView)>> {
    vs.map_values(
        |v: InputView|
            match v {
                InputView::Object(d) => d,
                _ => Seq::empty(),
            },
    )
}

/// What the whole computation returns for a parsed input stream: the
/// assembled settings of the accumulated sample, or the error the input
/// shape earns.
pub open spec fn spec_guess(vs: Seq<InputView>) -> Result<SettingsView, GuessError> {
    if vs.len() == 0 {
        Err(GuessError::EmptyInput)
    } else {
        match vs[0] {
            InputView::Array(es) => if entries_ok(es) {
                Ok(assemble(push_docs(Seq::empty(), entry_docs(es))))
            } else {
                Err(GuessError::InvalidDocument)
            },
            InputView::Object(_) => if stream_ok(vs) {
                Ok(assemble(push_docs(Seq::empty(), stream_docs(vs))))
            } else {
                Err(GuessError::InvalidDocument)
            },
            InputView::Other => Err(GuessError::InvalidDocument),
        }
    }
}

/// The number of `(field, value)` pairs a document contributes.
pub open spec fn input_weight(v: InputView) -> nat {
    match v {
        InputView::Object(d) => d.len(),
        InputView::Array(es) => entries_weight(es),
        InputView::Other => 0,
    }
}

/// The number of pairs the elements of an array contribute.
pub open spec fn entries_weight(es: Seq<ArrayEntryView>) -> nat
    decreases es.len(),
{
    if es.len() == 0 {
        0
    } else {
        entries_weight(es.drop_last()) + match es.last() {
            ArrayEntryView::Object(d) => d.len(),
            ArrayEntryView::Other => 0,
        }
    }
}

/// The number of pairs the whole stream contributes.
pub open spec fn stream_weight(vs: Seq<InputView>) -> nat
    decreases vs.len(),
{
    if vs.len() == 0 {
        0
    } else {
        stream_weight(vs.drop_last()) + input_weight(vs.last())
    }
}

/// Every value of a document is within the supported array width.
pub open spec fn doc_sizes_ok(d: Seq<(Seq<char>, ValueView)>) -> bool {
    forall|i: int| 0 <= i < d.len() ==> varr_len((#[trigger] d[i]).1) <= 0xFFFF_FFFF
}

/// Every value of the stream is within the supported array width.
pub open spec fn input_sizes_ok(v: InputView) -> bool {
    match v {
        InputView::Object(d) => doc_sizes_ok(d),
        InputView::Array(es) => forall|j: int|
            0 <= j < es.len() ==> match #[trigger] es[j] {
                ArrayEntryView::Object(d) => doc_sizes_ok(d),
                ArrayEntryView::Other => true,
            },
        InputView::Other => true,
    }
}

/// Every value of every stream element is within the supported array
/// width.
pub open spec fn stream_sizes_ok(vs: Seq<InputView>) -> bool {
    forall|i: int| 0 <= i < vs.len() ==> input_sizes_ok(#[trigger] vs[i])
}

proof fn lemma_entries_weight_prefix(es: Seq<ArrayEntryView>, i: int)
    requires
        0 <= i < es.len(),
    ensures
        entries_weight(es.subrange(0, i + 1)) == entries_weight(es.subrange(0, i)) + match es[i] {
            ArrayEntryView::Object(d) => d.len(),
            ArrayEntryView::Other => 0nat,
        },
{
    let a = es.subrange(0, i + 1);
    assert(a.drop_last() =~= es.subrange(0, i));
    assert(a.last() == es[i]);
}

proof fn lemma_entries_weight_le(es: Seq<ArrayEntryView>, i: int)
    requires
        0 <= i <= es.len(),
    ensures
        entries_weight(es.subrange(0, i)) <= entries_weight(es),
    decreases es.len() - i,
{
    if i == es.len() {
        assert(es.subrange(0, i) =~= es);
    } else {
        lemma_entries_weight_prefix(es, i);
        lemma_entries_weight_le(es, i + 1);
    }
}

proof fn lemma_stream_weight_prefix(vs: Seq<InputView>, i: int)
    requires
        0 <= i < vs.len(),
    ensures
        stream_weight(vs.subrange(0, i + 1)) == stream_weight(vs.subrange(0, i)) + input_weight(
            vs[i],
        ),
{
    let a = vs.subrange(0, i + 1);
    assert(a.drop_last() =~= vs.subrange(0, i));
    assert(a.last() == vs[i]);
}

proof fn lemma_stream_weight_le(vs: Seq<InputView>, i: int)
    requires
        0 <= i <= vs.len(),
    ensures
        stream_weight(vs.subrange(0, i)) <= stream_weight(vs),
    decreases vs.len() - i,
{
    if i == vs.len() {
        assert(vs.subrange(0, i) =~= vs);
    } else {
        lemma_stream_weight_prefix(vs, i);
        lemma_stream_weight_le(vs, i + 1);
    }
}

/// Push every pair of one document into the accumulator, in order.
#[verifier::loop_isolation(false)]
fn push_doc_exec(acc: &mut FieldAccumulator, d: &Document)
    requires
        old(acc).wf(),
        old(acc).pushed_count() + d@.len() <= 0xFFFF_FFFF,
        doc_sizes_ok(doc_view(d@)),
    ensures
        final(acc).wf(),
        final(acc)@ == push_doc(old(acc)@, doc_view(d@)),
        final(acc).pushed_count() == old(acc).pushed_count() + d@.len(),
{
    let ghost dv = doc_view(d@);
    let ghost base = acc@;
    proof {
        assert(push_doc(base, dv.subrange(0, 0)) == base) by {
            assert(dv.subrange(0, 0) =~= Seq::<(Seq<char>, ValueView)>::empty());
        };
    }
    let mut k: usize = 0;
    while k < d.len()
        invariant
            k <= d@.len(),
            dv.len() == d@.len(),
            acc.wf(),
            acc@ == push_doc(base, dv.subrange(0, k as int)),
            acc.pushed_count() == old(acc).pushed_count() + k,
        decreases d@.len() - k,
    {
        let ghost pre = dv.subrange(0, k as int);
        let ghost post = dv.subrange(0, k as int + 1);
        proof {
            assert(post.drop_last() =~= pre);
            assert(post.last() == dv[k as int]);
            assert(dv[k as int] == (d@[k as int].0@, d@[k as int].1@));
            assert(varr_len(dv[k as int].1) <= 0xFFFF_FFFF);
        }
        let pair = &d[k];
        acc.push(pair.0.clone(), clone_value(&pair.1));
        k = k + 1;
    }
    proof {
        assert(dv.subrange(0, dv.len() as int) =~= dv);
    }
}

/// Infer the final settings from a stream of parsed top-level values,
/// exactly as [`spec_guess`] specifies: the first value is either an array
/// whose elements must all be documents, or the first document of a stream
/// of documents; an empty stream is `EmptyInput`, any non-document is
/// `InvalidDocument`.
#[verifier::loop_isolation(false)]
pub fn guess(values: Vec<InputValue>) -> (r: Result<FinalSettings, GuessError>)
    requires
        stream_weight(stream_view(values@)) <= 0xFFFF_FFFF,
        stream_sizes_ok(stream_view(values@)),
    ensures
        (match r {
            Ok(s) => spec_guess(stream_view(values@)) == Ok::<SettingsView, GuessError>(s@),
            Err(e) => spec_guess(stream_view(values@)) == Err::<SettingsView, GuessError>(e),
        }),
{
    let ghost vs = stream_view(values@);
    let mut acc = FieldAccumulator::new();
    if values.len() == 0 {
        return Err(GuessError::EmptyInput);
    }
    match &values[0] {
        InputValue::Array(entries) => {
            let ghost es = entries@.map_values(|e: ArrayEntry| e@);
            proof {
                assert(vs[0] == InputView::Array(es));
                assert(input_weight(vs[0]) == entries_weight(es));
                lemma_stream_weight_prefix(vs, 0);
                lemma_stream_weight_le(vs, 1);
                assert(vs.subrange(0, 0) =~= Seq::<InputView>::empty());
                assert(entries_weight(es) <= 0xFFFF_FFFF);
                assert(push_docs(Seq::empty(), entry_docs(es).subrange(0, 0))
                    == Seq::<crate::score::FieldView>::empty()) by {
                    assert(entry_docs(es).subrange(0, 0) =~= Seq::<
                        Seq<(Seq<char>, ValueView)>,
                    >::empty());
                };
            }
            let mut i: usize = 0;
            while i < entries.len()
                invariant
                    i <= entries@.len(),
                    es.len() == entries@.len(),
                    forall|k: int| 0 <= k < i ==> (#[trigger] es[k]) is Object,
                    acc.wf(),
                    acc@ == push_docs(Seq::empty(), entry_docs(es).subrange(0, i as int)),
                    acc.pushed_count() == entries_weight(es.subrange(0, i as int)),
                decreases entries@.len() - i,
            {
                proof {
                    lemma_entries_weight_prefix(es, i as int);
                    lemma_entries_weight_le(es, i as int + 1);
                    assert(entry_docs(es).subrange(0, i as int + 1).drop_last() =~= entry_docs(
                        es,
                    ).subrange(0, i as int));
                }
                match &entries[i] {
                    ArrayEntry::Object(d) => {
                        proof {
                            assert(es[i as int] == ArrayEntryView::Object(doc_view(d@)));
                            assert(input_sizes_ok(vs[0]));
                            assert(doc_sizes_ok(doc_view(d@)));
                            assert(entry_docs(es)[i as int] == doc_view(d@));
                        }
                        push_doc_exec(&mut acc, d);
                    },
                    ArrayEntry::Other => {
                        proof {
                            assert(es[i as int] is Other);
                            assert(!entries_ok(es));
                        }
                        return Err(GuessError::InvalidDocument);
                    },
                }
                i = i + 1;
            }
            proof {
                assert(entries_ok(es));
                assert(entry_docs(es).subrange(0, es.len() as int) =~= entry_docs(es));
            }
            Ok(acc.finish())
        },
        InputValue::Object(_) => {
            let ghost docs = stream_docs(vs);
            proof {
                assert(push_docs(Seq::empty(), docs.subrange(0, 0)) == Seq::<
                    crate::score::FieldView,
                >::empty()) by {
                    assert(docs.subrange(0, 0) =~= Seq::<Seq<(Seq<char>, ValueView)>>::empty());
                };
                assert(stream_weight(vs.subrange(0, 0)) == 0) by {
                    assert(vs.subrange(0, 0) =~= Seq::<InputView>::empty());
                };
            }
            let mut i: usize = 0;
            while i < values.len()
                invariant
                    i <= values@.len(),
                    vs.len() == values@.len(),
                    docs == stream_docs(vs),
                    forall|k: int| 0 <= k < i ==> (#[trigger] vs[k]) is Object,
                    acc.wf(),
                    acc@ == push_docs(Seq::empty(), docs.subrange(0, i as int)),
                    acc.pushed_count() <= stream_weight(vs.subrange(0, i as int)),
                decreases values@.len() - i,
            {
                proof {
                    lemma_stream_weight_prefix(vs, i as int);
                    lemma_stream_weight_le(vs, i as int + 1);
                    assert(docs.subrange(0, i as int + 1).drop_last() =~= docs.subrange(
                        0,
                        i as int,
                    ));
                }
                match &values[i] {
                    InputValue::Object(d) => {
                        proof {
                            assert(vs[i as int] == InputView::Object(doc_view(d@)));
                            assert(input_sizes_ok(vs[i as int]));
                            assert(docs[i as int] == doc_view(d@));
                            assert(input_weight(vs[i as int]) == d@.len());
                        }
                        push_doc_exec(&mut acc, d);
                    },
                    _ => {
                        proof {
                            assert(!(vs[i as int] is Object));
                            assert(!stream_ok(vs));
                        }
                        return Err(GuessError::InvalidDocument);
                    },
                }
                i = i + 1;
            }
            proof {
                assert(stream_ok(vs));
                assert(docs.subrange(0, vs.len() as int) =~= docs);
            }
            Ok(acc.finish())
        },
        InputValue::Other => {
            proof {
                assert(vs[0] is Other);
            }
            Err(GuessError::InvalidDocument)
        },
    }
}

} // verus!
