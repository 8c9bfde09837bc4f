//! The PDF document-object model: the eight object kinds, their value
//! equality and hashing, and their exact serialization to PDF object syntax.

use vstd::prelude::*;

verus! {

use vstd::string::StringExecFns;
use vstd::string::StringSliceAdditionalSpecFns;
use crate::fmt::push_char;
use crate::float::{f32_within_epsilon, f32_bits_within_epsilon};

/// A numeric object. A floating value is carried as its IEEE-754
/// single-precision bit pattern, so that the model itself stays within
/// integer arithmetic. Equality is not total: a NaN bit pattern is unequal
/// even to itself, so the type offers `PartialEq` and not `Eq`.
#[derive(Debug)]
pub enum Numeric {
    UnsignedInteger(u32),
    SignedInteger(i32),
    Floating(u32),
}

/// Value equality of numerics: integers compare exactly by kind and value,
/// floating values compare within epsilon, and two numerics of different
/// kinds are never equal, even when they denote the same number.
pub open spec fn numeric_eq(a: Numeric, b: Numeric) -> bool {
    match (a, b) {
        (Numeric::UnsignedInteger(x), Numeric::UnsignedInteger(y)) => x == y,
        (Numeric::SignedInteger(x), Numeric::SignedInteger(y)) => x == y,
        (Numeric::Floating(x), Numeric::Floating(y)) => f32_within_epsilon(x, y),
        _ => false,
    }
}

impl Clone for Numeric {
    fn clone(&self) -> (r: Self)
        ensures
            r == *self,
    {
        match self {
            Numeric::UnsignedInteger(x) => Numeric::UnsignedInteger(*x),
            Numeric::SignedInteger(x) => Numeric::SignedInteger(*x),
            Numeric::Floating(x) => Numeric::Floating(*x),
        }
    }
}

impl From<u32> for Numeric {
    fn from(n: u32) -> (r: Numeric) {
        Numeric::UnsignedInteger(n)
    }
}

impl vstd::std_specs::convert::FromSpecImpl<u32> for Numeric {
    open spec fn obeys_from_spec() -> bool {
        true
    }

    open spec fn from_spec(n: u32) -> Numeric {
        Numeric::UnsignedInteger(n)
    }
}

impl From<i32> for Numeric {
    fn from(n: i32) -> (r: Numeric) {
        Numeric::SignedInteger(n)
    }
}

impl vstd::std_specs::convert::FromSpecImpl<i32> for Numeric {
    open spec fn obeys_from_spec() -> bool {
        true
    }

    open spec fn from_spec(n: i32) -> Numeric {
        Numeric::SignedInteger(n)
    }
}

impl PartialEq for Numeric {
    fn eq(&self, other: &Self) -> (r: bool) {
        match (self, other) {
            (Numeric::UnsignedInteger(x), Numeric::UnsignedInteger(y)) => *x == *y,
            (Numeric::SignedInteger(x), Numeric::SignedInteger(y)) => *x == *y,
            (Numeric::Floating(x), Numeric::Floating(y)) => f32_bits_within_epsilon(*x, *y),
            _ => false,
        }
    }
}

impl vstd::std_specs::cmp::PartialEqSpecImpl for Numeric {
    open spec fn obeys_eq_spec() -> bool {
        true
    }

    open spec fn eq_spec(&self, other: &Self) -> bool {
        numeric_eq(*self, *other)
    }
}

/// A PDF object. `Str` and `Name` carry their delimiters as part of the
/// payload, fixed at construction. A dictionary is an ordered list of
/// key-value pairs: insertion order is kept, and it is also the order that
/// serialization and hashing see, so equality of dictionaries is
/// order-sensitive by design.
#[derive(Debug)]
pub enum PDFObject {
    Boolean(bool),
    Number(Numeric),
    Str(String),
    Name(String),
    Arr(Vec<PDFObject>),
    Dict(Vec<(PDFObject, PDFObject)>),
    Stream(Vec<(PDFObject, PDFObject)>, String),
    Null,
}

/// Structural, recursive value equality of objects; numerics compare by
/// `numeric_eq`, dictionary entries compare pairwise in order.
pub open spec fn obj_eq(a: PDFObject, b: PDFObject) -> bool
    decreases a,
{
    match (a, b) {
        (PDFObject::Boolean(x), PDFObject::Boolean(y)) => x == y,
        (PDFObject::Number(x), PDFObject::Number(y)) => numeric_eq(x, y),
        (PDFObject::Str(x), PDFObject::Str(y)) => x@ == y@,
        (PDFObject::Name(x), PDFObject::Name(y)) => x@ == y@,
        (PDFObject::Arr(x), PDFObject::Arr(y)) => {
            &&& x@.len() == y@.len()
            &&& forall|i: int| 0 <= i < x@.len() ==> obj_eq(x@[i], y@[i])
        },
        (PDFObject::Dict(x), PDFObject::Dict(y)) => entries_eq(x@, y@),
        (PDFObject::Stream(x, s), PDFObject::Stream(y, t)) => entries_eq(x@, y@) && s@ == t@,
        (PDFObject::Null, PDFObject::Null) => true,
        _ => false,
    }
}

/// Pairwise, order-sensitive equality of entry lists.
pub open spec fn entries_eq(x: Seq<(PDFObject, PDFObject)>, y: Seq<(PDFObject, PDFObject)>) -> bool
    decreases x,
{
    &&& x.len() == y.len()
    &&& forall|i: int|
        0 <= i < x.len() ==> obj_eq(#[trigger] x[i].0, y[i].0) && obj_eq(x[i].1, y[i].1)
}

impl PDFObject {
    /// Recursive value equality, deciding `obj_eq`.
    pub fn eq_obj(&self, other: &PDFObject) -> (r: bool)
        ensures
            r == obj_eq(*self, *other),
        decreases *self,
    {
        match self {
            PDFObject::Boolean(x) => match other {
                PDFObject::Boolean(y) => *x == *y,
                _ => false,
            },
            PDFObject::Number(x) => match other {
                PDFObject::Number(y) => *x == *y,
                _ => false,
            },
            PDFObject::Str(x) => match other {
                PDFObject::Str(y) => *x == *y,
                _ => false,
            },
            PDFObject::Name(x) => match other {
                PDFObject::Name(y) => *x == *y,
                _ => false,
            },
            PDFObject::Arr(x) => match other {
                PDFObject::Arr(y) => {
                    if x.len() != y.len() {
                        return false;
                    }
                    let mut i: usize = 0;
                    while i < x.len()
                        invariant
                            i <= x@.len() == y@.len(),
                            *self == PDFObject::Arr(*x),
                            *other == PDFObject::Arr(*y),
                            forall|j: int| 0 <= j < i ==> obj_eq(x@[j], y@[j]),
                        decreases x@.len() - i,
                    {
                        proof {
                            assert(self->Arr_0 == *x);
                            assert(decreases_to!(*self => self->Arr_0));
                            assert(decreases_to!(*x => x@));
                            assert(decreases_to!(x@ => x@[i as int]));
                        }
                        if !x[i].eq_obj(&y[i]) {
                            return false;
                        }
                        i = i + 1;
                    }
                    true
                },
                _ => false,
            },
            PDFObject::Dict(x) => match other {
                PDFObject::Dict(y) => eq_entries(x, y),
                _ => false,
            },
            PDFObject::Stream(x, s) => match other {
                PDFObject::Stream(y, t) => {
                    let body_eq = *s == *t;
                    body_eq && eq_entries(x, y)
                },
                _ => false,
            },
            PDFObject::Null => match other {
                PDFObject::Null => true,
                _ => false,
            },
        }
    }
}

/// Pairwise equality of entry lists, deciding `entries_eq`.
fn eq_entries(x: &Vec<(PDFObject, PDFObject)>, y: &Vec<(PDFObject, PDFObject)>) -> (r: bool)
    ensures
        r == entries_eq(x@, y@),
    decreases *x,
{
    if x.len() != y.len() {
        return false;
    }
    let mut i: usize = 0;
    while i < x.len()
        invariant
            i <= x@.len() == y@.len(),
            forall|j: int| 0 <= j < i ==> obj_eq(#[trigger] x@[j].0, y@[j].0) && obj_eq(x@[j].1, y@[j].1),
        decreases x@.len() - i,
    {
        proof {
            assert(decreases_to!(*x => x@[i as int].0));
            assert(decreases_to!(*x => x@[i as int].1));
        }
        let kx = &x[i].0;
        let ky = &y[i].0;
        if !kx.eq_obj(ky) {
            return false;
        }
        if !x[i].1.eq_obj(&y[i].1) {
            return false;
        }
        i = i + 1;
    }
    true
}

impl PartialEq for PDFObject {
    fn eq(&self, other: &Self) -> (r: bool) {
        self.eq_obj(other)
    }
}

impl vstd::std_specs::cmp::PartialEqSpecImpl for PDFObject {
    open spec fn obeys_eq_spec() -> bool {
        true
    }

    open spec fn eq_spec(&self, other: &Self) -> bool {
        obj_eq(*self, *other)
    }
}

/// The lowercase hex digit character for `d` (`0 <= d <= 15`).
pub open spec fn hex_digit(d: int) -> char {
    if d == 0 {
        '0'
    } else if d == 1 {
        '1'
    } else if d == 2 {
        '2'
    } else if d == 3 {
        '3'
    } else if d == 4 {
        '4'
    } else if d == 5 {
        '5'
    } else if d == 6 {
        '6'
    } else if d == 7 {
        '7'
    } else if d == 8 {
        '8'
    } else if d == 9 {
        '9'
    } else if d == 10 {
        'a'
    } else if d == 11 {
        'b'
    } else if d == 12 {
        'c'
    } else if d == 13 {
        'd'
    } else if d == 14 {
        'e'
    } else {
        'f'
    }
}

/// Lowercase hex text of a byte sequence: two digits per byte, in order.
pub open spec fn hex_of(bytes: Seq<u8>) -> Seq<char>
    decreases bytes.len(),
{
    if bytes.len() == 0 {
        Seq::empty()
    } else {
        seq![hex_digit(bytes[0] as int / 16), hex_digit(bytes[0] as int % 16)] + hex_of(
            bytes.drop_first(),
        )
    }
}

/// Relies on `hex::encode`: encodes each input byte, in order, as a pair of
/// lowercase hexadecimal digit characters.
#[verifier::external_body]
fn hex_encode_bytes(b: &[u8]) -> (r: String)
    ensures
        r@ == hex_of(b@),
{
    hex::encode(b)
}

impl PDFObject {
    /// Wraps a boolean.
    pub fn boolean(b: bool) -> (r: Self)
        ensures
            r == PDFObject::Boolean(b),
    {
        PDFObject::Boolean(b)
    }

    /// Wraps a numeric.
    pub fn number(n: Numeric) -> (r: Self)
        ensures
            r == PDFObject::Number(n),
    {
        PDFObject::Number(n)
    }

    /// A literal string: the text wrapped in `( ... )`, with no escaping of
    /// the content (a malformed payload is a feature for stress testing).
    pub fn plain_string(s: &str) -> (r: Self)
        ensures
            r matches PDFObject::Str(p) && p@ == seq!['('] + s@ + seq![')'],
    {
        let mut t = String::from_str("(");
        t.append(s);
        push_char(&mut t, ')');
        proof {
            reveal_strlit("(");
            assert(t@ =~= seq!['('] + s@ + seq![')']);
        }
        PDFObject::Str(t)
    }

    /// A hex string: the text's bytes encoded as lowercase hex digits and
    /// wrapped in `< ... >`.
    pub fn hex_string(s: &str) -> (r: Self)
        ensures
            r matches PDFObject::Str(p) && p@ == seq!['<'] + hex_of(s.spec_bytes()) + seq!['>'],
    {
        let bytes: &[u8] = s.as_bytes();
        let enc = hex_encode_bytes(bytes);
        let mut t = String::from_str("<");
        t.append(enc.as_str());
        push_char(&mut t, '>');
        proof {
            reveal_strlit("<");
            assert(t@ =~= seq!['<'] + hex_of(s.spec_bytes()) + seq!['>']);
        }
        PDFObject::Str(t)
    }

    /// A name: the text prefixed with `/`.
    pub fn name(s: &str) -> (r: Self)
        ensures
            r matches PDFObject::Name(p) && p@ == seq!['/'] + s@,
    {
        let mut t = String::from_str("/");
        t.append(s);
        proof {
            reveal_strlit("/");
            assert(t@ =~= seq!['/'] + s@);
        }
        PDFObject::Name(t)
    }

    /// Wraps an ordered sequence of objects.
    pub fn array(a: Vec<PDFObject>) -> (r: Self)
        ensures
            r == PDFObject::Arr(a),
    {
        PDFObject::Arr(a)
    }

    /// Wraps a list of key-value entries, as given, without validation.
    pub fn dict(d: Vec<(PDFObject, PDFObject)>) -> (r: Self)
        ensures
            r == PDFObject::Dict(d),
    {
        PDFObject::Dict(d)
    }

    /// Wraps a list of key-value entries and a raw stream body, as given,
    /// without validation.
    pub fn stream(d: Vec<(PDFObject, PDFObject)>, s: &str) -> (r: Self)
        ensures
            r matches PDFObject::Stream(e, b) && e == d && b@ == s@,
    {
        PDFObject::Stream(d, String::from_str(s))
    }

    /// The null object.
    pub fn null() -> (r: Self)
        ensures
            r == PDFObject::Null,
    {
        PDFObject::Null
    }
}

/// The decimal text of a numeric: the integer's decimal text, or the float's
/// exact decimal expansion.
pub open spec fn ser_numeric(n: Numeric) -> Seq<char> {
    match n {
        Numeric::UnsignedInteger(u) => crate::fmt::dec_of(u as nat),
        Numeric::SignedInteger(i) => crate::fmt::dec_of_int(i as int),
        Numeric::Floating(bits) => crate::float::float_text(bits),
    }
}

/// The exact serialization of an object to PDF object syntax.
pub open spec fn ser_obj(o: PDFObject) -> Seq<char>
    decreases o, 1int,
{
    match o {
        PDFObject::Boolean(b) => if b {
            "true"@
        } else {
            "false"@
        },
        PDFObject::Number(n) => ser_numeric(n),
        PDFObject::Str(s) => s@,
        PDFObject::Name(s) => s@,
        PDFObject::Arr(v) => seq!['['] + ser_items(v@, 0) + seq![']'],
        PDFObject::Dict(d) => "<< "@ + ser_entries(d@, 0) + ">>\n"@,
        PDFObject::Stream(d, body) => "<< "@ + ser_entries(d@, 0) + ">>\n"@ + "stream\n"@ + body@
            + "\nendstream\n"@,
        PDFObject::Null => "null"@,
    }
}

/// The serialization of array items from index `i` on: items joined by a
/// single space.
pub open spec fn ser_items(s: Seq<PDFObject>, i: int) -> Seq<char>
    decreases s, s.len() - i + 1,
{
    if i < 0 || i >= s.len() {
        Seq::empty()
    } else {
        (if i > 0 {
            seq![' ']
        } else {
            Seq::<char>::empty()
        }) + ser_obj(s[i]) + ser_items(s, i + 1)
    }
}

/// The serialization of dictionary entries from index `i` on: each entry is
/// `key value` followed by a line feed.
pub open spec fn ser_entries(s: Seq<(PDFObject, PDFObject)>, i: int) -> Seq<char>
    decreases s, s.len() - i + 1,
{
    if i < 0 || i >= s.len() {
        Seq::empty()
    } else {
        ser_obj(s[i].0) + seq![' '] + ser_obj(s[i].1) + seq!['\n'] + ser_entries(s, i + 1)
    }
}

impl Numeric {
    /// Serializes the numeric to its decimal text.
    pub fn to_text(&self) -> (r: String)
        ensures
            r@ == ser_numeric(*self),
    {
        match self {
            Numeric::UnsignedInteger(u) => crate::fmt::u32_to_dec(*u),
            Numeric::SignedInteger(i) => crate::fmt::i32_to_dec(*i),
            Numeric::Floating(bits) => crate::float::f32_bits_to_text(*bits),
        }
    }
}

impl PDFObject {
    /// Serializes the object to exactly the text `ser_obj` describes.
    pub fn to_text(&self) -> (r: String)
        ensures
            r@ == ser_obj(*self),
        decreases *self,
    {
        match self {
            PDFObject::Boolean(b) => String::from_str(
                if *b {
                    "true"
                } else {
                    "false"
                },
            ),
            PDFObject::Number(n) => n.to_text(),
            PDFObject::Str(s) => s.clone(),
            PDFObject::Name(s) => s.clone(),
            PDFObject::Arr(v) => {
                let mut out = String::from_str("[");
                proof {
                    reveal_strlit("[");
                    assert(out@ =~= seq!['['] + ser_items(v@, 0int).take(0));
                }
                let mut i: usize = 0;
                while i < v.len()
                    invariant
                        i <= v@.len(),
                        *self == PDFObject::Arr(*v),
                        out@ + ser_items(v@, i as int) == seq!['['] + ser_items(v@, 0),
                    decreases v@.len() - i,
                {
                    proof {
                        assert(self->Arr_0 == *v);
                        assert(decreases_to!(*self => self->Arr_0));
                        assert(decreases_to!(*v => v@));
                        assert(decreases_to!(v@ => v@[i as int]));
                    }
                    let ghost i0: int = i as int;
                    if i > 0 {
                        push_char(&mut out, ' ');
                    }
                    let t = v[i].to_text();
                    out.append(t.as_str());
                    i = i + 1;
                    proof {
                        assert(out@ + ser_items(v@, i as int) =~= seq!['['] + ser_items(v@, 0));
                    }
                }
                push_char(&mut out, ']');
                proof {
                    assert(out@ =~= ser_obj(*self));
                }
                out
            },
            PDFObject::Dict(d) => {
                proof {
                    assert(self->Dict_0 == *d);
                    assert(decreases_to!(*self => self->Dict_0));
                }
                let body = entries_to_text(d);
                let mut out = String::from_str("<< ");
                out.append(body.as_str());
                out.append(">>\n");
                proof {
                    assert(out@ =~= ser_obj(*self));
                }
                out
            },
            PDFObject::Stream(d, sb) => {
                proof {
                    assert(self->Stream_0 == *d);
                    assert(decreases_to!(*self => self->Stream_0));
                }
                let body = entries_to_text(d);
                let mut out = String::from_str("<< ");
                out.append(body.as_str());
                out.append(">>\n");
                out.append("stream\n");
                out.append(sb.as_str());
                out.append("\nendstream\n");
                proof {
                    assert(out@ =~= ser_obj(*self));
                }
                out
            },
            PDFObject::Null => String::from_str("null"),
        }
    }
}

/// Serializes an entry list: each entry as `key value` and a line feed.
fn entries_to_text(d: &Vec<(PDFObject, PDFObject)>) -> (r: String)
    ensures
        r@ == ser_entries(d@, 0),
    decreases *d,
{
    let mut out = String::new();
    let mut i: usize = 0;
    while i < d.len()
        invariant
            i <= d@.len(),
            out@ + ser_entries(d@, i as int) == ser_entries(d@, 0),
        decreases d@.len() - i,
    {
        proof {
            assert(decreases_to!(*d => d@[i as int].0));
            assert(decreases_to!(*d => d@[i as int].1));
        }
        let t0 = d[i].0.to_text();
        out.append(t0.as_str());
        push_char(&mut out, ' ');
        let t1 = d[i].1.to_text();
        out.append(t1.as_str());
        push_char(&mut out, '\n');
        i = i + 1;
        proof {
            assert(out@ + ser_entries(d@, i as int) =~= ser_entries(d@, 0));
        }
    }
    out
}

/// An indirect object: an object wrapped with its object number and
/// generation number.
#[derive(Debug)]
pub struct Indirect {
    pub obj_num: u32,
    pub gen_num: u32,
    pub obj: PDFObject,
}

/// The serialization of an indirect object:
/// `{objnum} {gennum} obj\n{object}\nendobj`.
pub open spec fn ser_indirect(ind: Indirect) -> Seq<char> {
    crate::fmt::dec_of(ind.obj_num as nat) + seq![' '] + crate::fmt::dec_of(ind.gen_num as nat)
        + seq![' '] + "obj\n"@ + ser_obj(ind.obj) + "\nendobj"@
}

impl Indirect {
    /// Wraps an object with its object number and generation number.
    pub fn new(n: u32, g: u32, o: PDFObject) -> (r: Self)
        ensures
            r == (Indirect { obj_num: n, gen_num: g, obj: o }),
    {
        Indirect { obj_num: n, gen_num: g, obj: o }
    }

    /// Serializes the indirect object.
    pub fn to_text(&self) -> (r: String)
        ensures
            r@ == ser_indirect(*self),
    {
        let mut out = crate::fmt::u32_to_dec(self.obj_num);
        push_char(&mut out, ' ');
        let g = crate::fmt::u32_to_dec(self.gen_num);
        out.append(g.as_str());
        push_char(&mut out, ' ');
        out.append("obj\n");
        let body = self.obj.to_text();
        out.append(body.as_str());
        out.append("\nendobj");
        proof {
            assert(out@ =~= ser_indirect(*self));
        }
        out
    }
}

/// One mixing step of the structural hash: multiply-accumulate modulo 2^64.
pub open spec fn mix(h: int, x: int) -> int {
    (h * 31 + x) % 0x10000000000000000
}

fn mix_exec(h: u64, x: u64) -> (r: u64)
    ensures
        r as int == mix(h as int, x as int),
{
    (((h as u128) * 31 + (x as u128)) % 0x10000000000000000) as u64
}

/// The structural hash of a numeric. Integers hash their value (with a tag
/// per kind); a floating value hashes its bit pattern, not its rounded value,
/// so two floats that are equal within epsilon may hash differently — a
/// documented limitation of the model, not an accident.
pub open spec fn hash_numeric(n: Numeric) -> int {
    match n {
        Numeric::UnsignedInteger(u) => mix(1, u as int),
        Numeric::SignedInteger(i) => mix(2, i as int + 0x80000000),
        Numeric::Floating(bits) => mix(3, bits as int),
    }
}

/// Folds the bytes of a text into the accumulator, in order.
pub open spec fn hash_bytes(bs: Seq<u8>, i: int, acc: int) -> int
    decreases bs.len() - i,
{
    if i < 0 || i >= bs.len() {
        acc
    } else {
        hash_bytes(bs, i + 1, mix(acc, bs[i] as int))
    }
}

/// The structural, recursive hash of an object. Dictionary and stream
/// entries are folded in list order, so the hash (like equality) is
/// order-sensitive for dictionaries.
pub open spec fn hash_obj(o: PDFObject) -> int
    decreases o, 1int,
{
    match o {
        PDFObject::Boolean(b) => mix(
            4,
            if b {
                1
            } else {
                0
            },
        ),
        PDFObject::Number(n) => mix(5, hash_numeric(n)),
        PDFObject::Str(s) => mix(6, hash_bytes(vstd::utf8::encode_utf8(s@), 0, 0)),
        PDFObject::Name(s) => mix(7, hash_bytes(vstd::utf8::encode_utf8(s@), 0, 0)),
        PDFObject::Arr(v) => mix(8, hash_list(v@, 0, 0)),
        PDFObject::Dict(d) => mix(9, hash_entries(d@, 0, 0)),
        PDFObject::Stream(d, sb) => mix(
            10,
            mix(hash_entries(d@, 0, 0), hash_bytes(vstd::utf8::encode_utf8(sb@), 0, 0)),
        ),
        PDFObject::Null => 11,
    }
}

/// Folds the hashes of the objects of a list into the accumulator, in order.
pub open spec fn hash_list(s: Seq<PDFObject>, i: int, acc: int) -> int
    decreases s, s.len() - i + 1,
{
    if i < 0 || i >= s.len() {
        acc
    } else {
        hash_list(s, i + 1, mix(acc, hash_obj(s[i])))
    }
}

/// Folds the hashes of the entries of a list into the accumulator, in order,
/// key before value.
pub open spec fn hash_entries(s: Seq<(PDFObject, PDFObject)>, i: int, acc: int) -> int
    decreases s, s.len() - i + 1,
{
    if i < 0 || i >= s.len() {
        acc
    } else {
        hash_entries(s, i + 1, mix(mix(acc, hash_obj(s[i].0)), hash_obj(s[i].1)))
    }
}

impl Numeric {
    /// Computes the structural hash `hash_numeric`.
    pub fn hash_u64(&self) -> (r: u64)
        ensures
            r as int == hash_numeric(*self),
    {
        match self {
            Numeric::UnsignedInteger(u) => mix_exec(1, *u as u64),
            Numeric::SignedInteger(i) => mix_exec(2, ((*i as i64) + 0x80000000) as u64),
            Numeric::Floating(bits) => mix_exec(3, *bits as u64),
        }
    }
}

/// Folds the bytes of a text into the accumulator.
fn hash_text(s: &str, acc0: u64) -> (r: u64)
    ensures
        r as int == hash_bytes(s.spec_bytes(), 0, acc0 as int),
{
    let bs: &[u8] = s.as_bytes();
    let mut acc: u64 = acc0;
    let mut i: usize = 0;
    while i < bs.len()
        invariant
            i <= bs@.len(),
            bs@ == s.spec_bytes(),
            hash_bytes(bs@, i as int, acc as int) == hash_bytes(bs@, 0, acc0 as int),
        decreases bs@.len() - i,
    {
        acc = mix_exec(acc, bs[i] as u64);
        i = i + 1;
    }
    acc
}

impl PDFObject {
    /// Computes the structural hash `hash_obj`.
    pub fn hash_u64(&self) -> (r: u64)
        ensures
            r as int == hash_obj(*self),
        decreases *self,
    {
        match self {
            PDFObject::Boolean(b) => mix_exec(
                4,
                if *b {
                    1
                } else {
                    0
                },
            ),
            PDFObject::Number(n) => mix_exec(5, n.hash_u64()),
            PDFObject::Str(s) => mix_exec(6, hash_text(s.as_str(), 0)),
            PDFObject::Name(s) => mix_exec(7, hash_text(s.as_str(), 0)),
            PDFObject::Arr(v) => {
                let mut acc: u64 = 0;
                let mut i: usize = 0;
                while i < v.len()
                    invariant
                        i <= v@.len(),
                        *self == PDFObject::Arr(*v),
                        hash_list(v@, i as int, acc as int) == hash_list(v@, 0, 0),
                    decreases v@.len() - i,
                {
                    proof {
                        assert(self->Arr_0 == *v);
                        assert(decreases_to!(*self => self->Arr_0));
                        assert(decreases_to!(*v => v@));
                        assert(decreases_to!(v@ => v@[i as int]));
                    }
                    acc = mix_exec(acc, v[i].hash_u64());
                    i = i + 1;
                }
                mix_exec(8, acc)
            },
            PDFObject::Dict(d) => {
                proof {
                    assert(self->Dict_0 == *d);
                    assert(decreases_to!(*self => self->Dict_0));
                }
                mix_exec(9, hash_entry_list(d))
            },
            PDFObject::Stream(d, sb) => {
                proof {
                    assert(self->Stream_0 == *d);
                    assert(decreases_to!(*self => self->Stream_0));
                }
                let hd = hash_entry_list(d);
                mix_exec(10, mix_exec(hd, hash_text(sb.as_str(), 0)))
            },
            PDFObject::Null => 11,
        }
    }
}

/// Folds the hashes of an entry list, key before value, in order.
fn hash_entry_list(d: &Vec<(PDFObject, PDFObject)>) -> (r: u64)
    ensures
        r as int == hash_entries(d@, 0, 0),
    decreases *d,
{
    let mut acc: u64 = 0;
    let mut i: usize = 0;
    while i < d.len()
        invariant
            i <= d@.len(),
            hash_entries(d@, i as int, acc as int) == hash_entries(d@, 0, 0),
        decreases d@.len() - i,
    {
        proof {
            assert(decreases_to!(*d => d@[i as int].0));
            assert(decreases_to!(*d => d@[i as int].1));
        }
        let hk = d[i].0.hash_u64();
        let hv = d[i].1.hash_u64();
        acc = mix_exec(mix_exec(acc, hk), hv);
        i = i + 1;
    }
    acc
}

} // verus!
