//! The randomized generator: builds arbitrary-but-structurally-valid model
//! values and document fragments by uniform random choice, bounded by
//! caller-supplied size limits.

use vstd::prelude::*;

verus! {

use vstd::string::StringExecFns;
use vstd::string::StrSliceExecFns;
use crate::fmt::push_char;
use crate::pdfobj::{PDFObject, Numeric, obj_eq, hex_of};
use vstd::string::StringSliceAdditionalSpecFns;

#[verifier::external_type_specification]
#[verifier::external_body]
pub struct ExStdRng(rand::rngs::StdRng);

/// Relies on rand's `SeedableRng::seed_from_u64` for `StdRng`: builds a
/// deterministic generator from the seed.
#[verifier::external_body]
fn rng_from_seed(seed: u64) -> rand::rngs::StdRng {
    <rand::rngs::StdRng as rand::SeedableRng>::seed_from_u64(seed)
}

/// Relies on rand's `RngExt::random_range` over `0..n`: it panics only on an
/// empty range, and otherwise returns a value of the range.
#[verifier::external_body]
fn rng_below(rng: &mut rand::rngs::StdRng, n: u32) -> (r: u32)
    requires
        n >= 1,
    ensures
        r < n,
{
    rand::RngExt::random_range(rng, 0..n)
}

/// Relies on rand's `RngExt::random_range` over the full `u32` range.
#[verifier::external_body]
fn rng_u32(rng: &mut rand::rngs::StdRng) -> u32 {
    rand::RngExt::random_range(rng, 0..=u32::MAX)
}

/// The alphabet the generator draws string and name characters from.
pub open spec fn alnum_chars() -> Seq<char> {
    "ABCDEFGHIJKLMNOPQRSTUVWXYZabcdefghijklmnopqrstuvwxyz0123456789"@
}

/// Every character of `s` is from the generator's alphabet.
pub open spec fn is_alnum_seq(s: Seq<char>) -> bool {
    forall|i: int| 0 <= i < s.len() ==> alnum_chars().contains(#[trigger] s[i])
}

/// Raw generated text: alphanumeric, with fewer than `max` characters.
pub open spec fn is_gen_text(s: Seq<char>, max: nat) -> bool {
    s.len() < max && is_alnum_seq(s)
}

/// A generated string object: a literal or hex string whose raw text is
/// alphanumeric and shorter than `max` characters.
pub open spec fn is_gen_string(o: PDFObject, max: nat) -> bool {
    o is Str && exists|raw: Seq<char>|
        #![auto]
        is_gen_text(raw, max) && (o->Str_0@ == seq!['('] + raw + seq![')'] || o->Str_0@ == seq![
            '<',
        ] + hex_of(vstd::utf8::encode_utf8(raw)) + seq!['>'])
}

/// A generated name object: `/` followed by alphanumeric text shorter than
/// `max` characters.
pub open spec fn is_gen_name(o: PDFObject, max: nat) -> bool {
    o is Name && exists|raw: Seq<char>|
        #![auto]
        is_gen_text(raw, max) && o->Name_0@ == seq!['/'] + raw
}

/// No two keys of the entry list are equal objects.
pub open spec fn keys_unique(s: Seq<(PDFObject, PDFObject)>) -> bool {
    forall|i: int, j: int|
        0 <= i < j < s.len() ==> !obj_eq(#[trigger] s[i].0, #[trigger] s[j].0)
}

/// The menu an array element or dictionary value is drawn from: a boolean, a
/// number, a string of at most 99 raw characters, a name of at most 29 raw
/// characters, or a dictionary of at most 2 entries whose keys are distinct
/// generated names. The fixed sub-limits flatten the recursion instead of
/// threading the full depth budget through.
pub open spec fn is_gen_element(o: PDFObject) -> bool {
    ||| o is Boolean
    ||| o is Number
    ||| is_gen_string(o, 100)
    ||| is_gen_name(o, 30)
    ||| (o is Dict && o->Dict_0@.len() < 3 && keys_unique(o->Dict_0@) && forall|i: int|
        0 <= i < o->Dict_0@.len() ==> is_gen_name(#[trigger] o->Dict_0@[i].0, 30))
}

/// A generated dictionary: fewer than `max` entries, every key a generated
/// name of at most 29 raw characters, keys pairwise distinct, every value
/// from the element menu.
pub open spec fn is_gen_dict(o: PDFObject, max: nat) -> bool {
    &&& o is Dict
    &&& o->Dict_0@.len() < max
    &&& keys_unique(o->Dict_0@)
    &&& forall|i: int|
        0 <= i < o->Dict_0@.len() ==> is_gen_name(#[trigger] o->Dict_0@[i].0, 30) && is_gen_element(
            o->Dict_0@[i].1,
        )
}

/// The random generator: a seeded source of structurally valid but
/// arbitrary model values. Every operation is total and bounded by its size
/// argument; none panics.
pub struct Gen {
    rng: rand::rngs::StdRng,
}

impl Gen {
    /// A generator with a deterministic seed.
    pub fn from_seed(seed: u64) -> Gen {
        Gen { rng: rng_from_seed(seed) }
    }

    /// A file header line. With no override the version digit is drawn from
    /// 0 through 7; an override is spliced in verbatim, valid or not, by
    /// design.
    pub fn header(&mut self, version_override: Option<&str>) -> (r: String)
        ensures
            version_override matches Option::Some(v) ==> r@ == "%PDF-"@ + v@,
            version_override is None ==> exists|d: int|
                0 <= d <= 7 && r@ == "%PDF-1."@ + seq![#[trigger] crate::fmt::dec_digit(d)],
    {
        match version_override {
            Option::Some(v) => {
                let mut s = String::from_str("%PDF-");
                s.append(v);
                s
            },
            Option::None => {
                let d = rng_below(&mut self.rng, 8);
                let mut s = String::from_str("%PDF-1.");
                push_char(&mut s, crate::fmt::dec_digit_char(d as u128));
                proof {
                    assert(s@ == "%PDF-1."@ + seq![crate::fmt::dec_digit(d as int)]) by {
                        assert(s@ =~= "%PDF-1."@ + seq![crate::fmt::dec_digit(d as int)]);
                    }
                }
                s
            },
        }
    }

    /// A random boolean object.
    pub fn boolean(&mut self) -> (r: PDFObject)
        ensures
            r is Boolean,
    {
        let b = rng_below(&mut self.rng, 2);
        PDFObject::boolean(b == 1)
    }

    /// A random integer numeric of the requested kind; the full 32-bit range
    /// can be drawn.
    pub fn integer(&mut self, signed: bool) -> (r: Numeric)
        ensures
            signed <==> r is SignedInteger,
            !signed <==> r is UnsignedInteger,
    {
        let u = rng_u32(&mut self.rng);
        if signed {
            Numeric::SignedInteger(#[verifier::truncate] (u as i32))
        } else {
            Numeric::UnsignedInteger(u)
        }
    }

    /// A random floating numeric: an arbitrary bit pattern, so NaN and the
    /// infinities can be drawn, by design.
    pub fn float(&mut self) -> (r: Numeric)
        ensures
            r is Floating,
    {
        Numeric::Floating(rng_u32(&mut self.rng))
    }

    /// A random numeric, drawn uniformly among the three kinds.
    pub fn number(&mut self) -> Numeric {
        let k = rng_below(&mut self.rng, 3);
        if k == 0 {
            self.integer(false)
        } else if k == 1 {
            self.integer(true)
        } else {
            self.float()
        }
    }

    /// Raw random text: fewer than `max_len` characters, each drawn
    /// uniformly from the alphanumeric alphabet.
    fn text(&mut self, max_len: u32) -> (r: String)
        requires
            max_len >= 1,
        ensures
            is_gen_text(r@, max_len as nat),
    {
        let k = rng_below(&mut self.rng, max_len);
        let alpha: &str = "ABCDEFGHIJKLMNOPQRSTUVWXYZabcdefghijklmnopqrstuvwxyz0123456789";
        proof {
            reveal_strlit("ABCDEFGHIJKLMNOPQRSTUVWXYZabcdefghijklmnopqrstuvwxyz0123456789");
        }
        let mut s = String::new();
        let mut i: u32 = 0;
        while i < k
            invariant
                i <= k < max_len,
                alpha@ == alnum_chars(),
                alpha@.len() == 62,
                s@.len() == i,
                is_alnum_seq(s@),
            decreases k - i,
        {
            let idx = rng_below(&mut self.rng, 62);
            let c = alpha.get_char(idx as usize);
            push_char(&mut s, c);
            proof {
                assert(alnum_chars().contains(c)) by {
                    assert(alnum_chars()[idx as int] == c);
                }
            }
            i = i + 1;
        }
        s
    }

    /// A random string object: literal or hex encoding is chosen uniformly,
    /// then fewer than `max_len` alphanumeric characters are drawn.
    pub fn string(&mut self, max_len: u32) -> (r: PDFObject)
        requires
            max_len >= 1,
        ensures
            is_gen_string(r, max_len as nat),
    {
        let raw = self.text(max_len);
        let hex = rng_below(&mut self.rng, 2) == 1;
        if hex {
            let r = PDFObject::hex_string(raw.as_str());
            proof {
                assert(is_gen_string(r, max_len as nat)) by {
                    assert(is_gen_text(raw@, max_len as nat));
                }
            }
            r
        } else {
            let r = PDFObject::plain_string(raw.as_str());
            proof {
                assert(is_gen_string(r, max_len as nat)) by {
                    assert(is_gen_text(raw@, max_len as nat));
                }
            }
            r
        }
    }

    /// A random name object: `/` followed by fewer than `max_len`
    /// alphanumeric characters.
    pub fn name(&mut self, max_len: u32) -> (r: PDFObject)
        requires
            max_len >= 1,
        ensures
            is_gen_name(r, max_len as nat),
    {
        let raw = self.text(max_len);
        let r = PDFObject::name(raw.as_str());
        proof {
            assert(is_gen_name(r, max_len as nat)) by {
                assert(is_gen_text(raw@, max_len as nat));
            }
        }
        r
    }

    /// One element of the array/dictionary menu. `depth` caps how far
    /// dictionaries may nest inside elements, so that generation always
    /// terminates: at depth zero the dictionary alternative is left out.
    fn element(&mut self, depth: u32) -> (r: PDFObject)
        ensures
            is_gen_element(r),
        decreases depth, 0int,
    {
        let k = if depth == 0 {
            rng_below(&mut self.rng, 4)
        } else {
            rng_below(&mut self.rng, 5)
        };
        if k == 0 {
            self.boolean()
        } else if k == 1 {
            PDFObject::number(self.number())
        } else if k == 2 {
            self.string(100)
        } else if k == 3 {
            self.name(30)
        } else {
            self.dict_nested(3, depth - 1)
        }
    }

    /// A random array: fewer than `max_budget` elements, each drawn from the
    /// element menu.
    pub fn array(&mut self, max_budget: u32) -> (r: PDFObject)
        requires
            max_budget >= 1,
        ensures
            r is Arr,
            r->Arr_0@.len() < max_budget,
            forall|i: int| 0 <= i < r->Arr_0@.len() ==> is_gen_element(#[trigger] r->Arr_0@[i]),
    {
        let n = rng_below(&mut self.rng, max_budget);
        let mut items: Vec<PDFObject> = Vec::new();
        let mut i: u32 = 0;
        while i < n
            invariant
                i <= n < max_budget,
                items@.len() == i,
                forall|j: int| 0 <= j < items@.len() ==> is_gen_element(#[trigger] items@[j]),
            decreases n - i,
        {
            let e = self.element(4);
            items.push(e);
            i = i + 1;
        }
        PDFObject::array(items)
    }

    /// A random dictionary: fewer than `max_budget` entries, each a
    /// generated name keyed to an element of the menu; an entry whose key
    /// already occurs is skipped, keeping keys unique.
    pub fn dict(&mut self, max_budget: u32) -> (r: PDFObject)
        requires
            max_budget >= 1,
        ensures
            is_gen_dict(r, max_budget as nat),
    {
        self.dict_nested(max_budget, 4)
    }

    /// A random dictionary with a nesting budget left for its values.
    fn dict_nested(&mut self, max_budget: u32, depth: u32) -> (r: PDFObject)
        requires
            max_budget >= 1,
        ensures
            is_gen_dict(r, max_budget as nat),
        decreases depth, 1int,
    {
        let n = rng_below(&mut self.rng, max_budget);
        let mut entries: Vec<(PDFObject, PDFObject)> = Vec::new();
        let mut i: u32 = 0;
        while i < n
            invariant
                i <= n < max_budget,
                entries@.len() <= i,
                keys_unique(entries@),
                forall|j: int|
                    0 <= j < entries@.len() ==> is_gen_name(#[trigger] entries@[j].0, 30)
                        && is_gen_element(entries@[j].1),
            decreases n - i,
        {
            let key = self.name(30);
            let val = self.element(depth);
            let mut present = false;
            let mut j: usize = 0;
            while j < entries.len()
                invariant
                    j <= entries@.len(),
                    present <==> exists|m: int| 0 <= m < j && obj_eq(#[trigger] entries@[m].0, key),
                decreases entries@.len() - j,
            {
                if entries[j].0.eq_obj(&key) {
                    present = true;
                }
                j = j + 1;
            }
            if !present {
                entries.push((key, val));
            }
            i = i + 1;
        }
        PDFObject::dict(entries)
    }

    /// A random raw text blob: fewer than `max_len` characters, each a code
    /// point drawn uniformly from 0 through 255, one byte's worth of range.
    pub fn bytes(&mut self, max_len: u32) -> (r: String)
        requires
            max_len >= 1,
        ensures
            r@.len() < max_len,
            forall|i: int| 0 <= i < r@.len() ==> ((#[trigger] r@[i]) as u32) < 256,
    {
        let k = rng_below(&mut self.rng, max_len);
        let mut s = String::new();
        let mut i: u32 = 0;
        while i < k
            invariant
                i <= k < max_len,
                s@.len() == i,
                forall|j: int| 0 <= j < s@.len() ==> ((#[trigger] s@[j]) as u32) < 256,
            decreases k - i,
        {
            let b = rng_below(&mut self.rng, 256) as u8;
            let c = b as char;
            push_char(&mut s, c);
            i = i + 1;
        }
        s
    }
}

} // verus!
