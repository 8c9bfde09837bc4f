//! The laws the object model promises: how numeric equality relates kinds
//! and values, and that equal float-free objects hash equally.

use vstd::prelude::*;

verus! {

use crate::pdfobj::{
    Numeric,
    PDFObject,
    numeric_eq,
    obj_eq,
    entries_eq,
    hash_obj,
    hash_list,
    hash_entries,
    mix,
};
use crate::float::f32_within_epsilon;

/// Whether two numerics are of the same kind.
pub open spec fn numeric_same_kind(a: Numeric, b: Numeric) -> bool {
    match (a, b) {
        (Numeric::UnsignedInteger(_), Numeric::UnsignedInteger(_)) => true,
        (Numeric::SignedInteger(_), Numeric::SignedInteger(_)) => true,
        (Numeric::Floating(_), Numeric::Floating(_)) => true,
        _ => false,
    }
}

/// Law: numeric equality matches value equality for integers of the same
/// kind and equality-within-epsilon for floats; numerics of different kinds
/// are never equal, even with identical textual representation.
pub proof fn lemma_numeric_eq_kinds(a: Numeric, b: Numeric)
    ensures
        !numeric_same_kind(a, b) ==> !numeric_eq(a, b),
        (a is UnsignedInteger && b is UnsignedInteger) ==> (numeric_eq(a, b)
            <==> a->UnsignedInteger_0 == b->UnsignedInteger_0),
        (a is SignedInteger && b is SignedInteger) ==> (numeric_eq(a, b) <==> a->SignedInteger_0
            == b->SignedInteger_0),
        (a is Floating && b is Floating) ==> (numeric_eq(a, b) <==> f32_within_epsilon(
            a->Floating_0,
            b->Floating_0,
        )),
{
}

/// Whether an object contains no floating numeric anywhere.
pub open spec fn float_free(o: PDFObject) -> bool
    decreases o, 1int,
{
    match o {
        PDFObject::Number(n) => !(n matches Numeric::Floating(_)),
        PDFObject::Arr(v) => seq_float_free(v@),
        PDFObject::Dict(d) => entries_float_free(d@),
        PDFObject::Stream(d, _) => entries_float_free(d@),
        _ => true,
    }
}

/// Every object of the list is float-free.
pub open spec fn seq_float_free(s: Seq<PDFObject>) -> bool
    decreases s,
{
    forall|i: int| 0 <= i < s.len() ==> float_free(#[trigger] s[i])
}

/// Every key and value of the entry list is float-free.
pub open spec fn entries_float_free(s: Seq<(PDFObject, PDFObject)>) -> bool
    decreases s,
{
    forall|i: int| 0 <= i < s.len() ==> float_free(#[trigger] s[i].0) && float_free(s[i].1)
}

/// Law: for objects built of booleans, integers, strings, names, nulls, and
/// arrays, dictionaries and streams of those, equal objects hash equally.
/// Objects containing floating numerics are exempt: a floating value hashes
/// its bit pattern while it compares within epsilon, so equal floats may
/// hash apart.
pub proof fn lemma_eq_objects_hash_equal(a: PDFObject, b: PDFObject)
    requires
        obj_eq(a, b),
        float_free(a),
    ensures
        hash_obj(a) == hash_obj(b),
    decreases a, 1int,
{
    match a {
        PDFObject::Arr(x) => match b {
            PDFObject::Arr(y) => {
                lemma_eq_hash_list(x@, y@, 0, 0);
            },
            _ => {
            },
        },
        PDFObject::Dict(x) => match b {
            PDFObject::Dict(y) => {
                lemma_eq_hash_entries(x@, y@, 0, 0);
            },
            _ => {
            },
        },
        PDFObject::Stream(x, s) => match b {
            PDFObject::Stream(y, t) => {
                lemma_eq_hash_entries(x@, y@, 0, 0);
            },
            _ => {
            },
        },
        _ => {
        },
    }
}

proof fn lemma_eq_hash_list(x: Seq<PDFObject>, y: Seq<PDFObject>, i: int, acc: int)
    requires
        x.len() == y.len(),
        forall|j: int| 0 <= j < x.len() ==> obj_eq(x[j], y[j]),
        seq_float_free(x),
    ensures
        hash_list(x, i, acc) == hash_list(y, i, acc),
    decreases x, x.len() - i + 1,
{
    if 0 <= i < x.len() {
        assert(decreases_to!(x => x[i]));
        lemma_eq_objects_hash_equal(x[i], y[i]);
        lemma_eq_hash_list(x, y, i + 1, mix(acc, hash_obj(x[i])));
    }
}

proof fn lemma_eq_hash_entries(
    x: Seq<(PDFObject, PDFObject)>,
    y: Seq<(PDFObject, PDFObject)>,
    i: int,
    acc: int,
)
    requires
        entries_eq(x, y),
        entries_float_free(x),
    ensures
        hash_entries(x, i, acc) == hash_entries(y, i, acc),
    decreases x, x.len() - i + 1,
{
    if 0 <= i < x.len() {
        assert(decreases_to!(x => x[i]));
        assert(decreases_to!(x[i] => x[i].0));
        assert(decreases_to!(x[i] => x[i].1));
        lemma_eq_objects_hash_equal(x[i].0, y[i].0);
        lemma_eq_objects_hash_equal(x[i].1, y[i].1);
        lemma_eq_hash_entries(x, y, i + 1, mix(mix(acc, hash_obj(x[i].0)), hash_obj(x[i].1)));
    }
}

} // verus!
