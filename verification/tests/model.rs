use pdfgen::pdfobj::{Indirect, Numeric, PDFObject};

#[test]
fn serialize_plain_string() {
    let o = PDFObject::plain_string("Hello");
    assert_eq!(o.to_text(), "(Hello)");
}

#[test]
fn serialize_hex_string() {
    let o = PDFObject::hex_string("Hi");
    assert_eq!(o.to_text(), "<4869>");
}

#[test]
fn serialize_hex_string_empty() {
    let o = PDFObject::hex_string("");
    assert_eq!(o.to_text(), "<>");
}

#[test]
fn serialize_name() {
    let o = PDFObject::name("Length");
    assert_eq!(o.to_text(), "/Length");
}

#[test]
fn serialize_booleans_and_null() {
    assert_eq!(PDFObject::boolean(true).to_text(), "true");
    assert_eq!(PDFObject::boolean(false).to_text(), "false");
    assert_eq!(PDFObject::null().to_text(), "null");
}

#[test]
fn serialize_array_bool_number() {
    let o = PDFObject::array(vec![
        PDFObject::boolean(true),
        PDFObject::number(Numeric::UnsignedInteger(1337)),
    ]);
    assert_eq!(o.to_text(), "[true 1337]");
}

#[test]
fn serialize_empty_array() {
    let o = PDFObject::array(vec![]);
    assert_eq!(o.to_text(), "[]");
}

#[test]
fn serialize_signed_numbers() {
    assert_eq!(PDFObject::number(Numeric::SignedInteger(-42)).to_text(), "-42");
    assert_eq!(
        PDFObject::number(Numeric::SignedInteger(i32::MIN)).to_text(),
        "-2147483648"
    );
    assert_eq!(PDFObject::number(Numeric::SignedInteger(0)).to_text(), "0");
    assert_eq!(
        PDFObject::number(Numeric::UnsignedInteger(u32::MAX)).to_text(),
        "4294967295"
    );
}

#[test]
fn serialize_floats() {
    let f = |x: f32| PDFObject::number(Numeric::Floating(x.to_bits())).to_text();
    assert_eq!(f(0.0), "0");
    assert_eq!(f(-0.0), "-0");
    assert_eq!(f(1.0), "1");
    assert_eq!(f(0.5), "0.5");
    assert_eq!(f(-1.5), "-1.5");
    assert_eq!(f(2048.0), "2048");
    // the exact decimal expansion of the nearest f32 to 0.1
    assert_eq!(f(0.1), "0.100000001490116119384765625");
    assert_eq!(f(f32::NAN), "NaN");
    assert_eq!(f(f32::INFINITY), "inf");
    assert_eq!(f(f32::NEG_INFINITY), "-inf");
}

#[test]
fn serialize_dict() {
    let d = PDFObject::dict(vec![(
        PDFObject::name("Length"),
        PDFObject::number(Numeric::UnsignedInteger(12)),
    )]);
    assert_eq!(d.to_text(), "<< /Length 12\n>>\n");
}

#[test]
fn serialize_indirect_stream() {
    let entries = vec![(
        PDFObject::name("Length"),
        PDFObject::number(Numeric::UnsignedInteger(12)),
    )];
    let s = PDFObject::stream(entries, "hello world!");
    let ind = Indirect::new(10, 0, s);
    assert_eq!(
        ind.to_text(),
        "10 0 obj\n<< /Length 12\n>>\nstream\nhello world!\nendstream\n\nendobj"
    );
}

#[test]
fn numeric_equality_same_kind() {
    assert_eq!(Numeric::UnsignedInteger(5), Numeric::UnsignedInteger(5));
    assert_ne!(Numeric::UnsignedInteger(5), Numeric::UnsignedInteger(6));
    assert_eq!(Numeric::SignedInteger(-7), Numeric::SignedInteger(-7));
    assert_ne!(Numeric::SignedInteger(-7), Numeric::SignedInteger(7));
}

#[test]
fn numeric_equality_kinds_never_mix() {
    assert_ne!(Numeric::UnsignedInteger(5), Numeric::SignedInteger(5));
    assert_ne!(
        Numeric::UnsignedInteger(1),
        Numeric::Floating(1.0f32.to_bits())
    );
    assert_ne!(
        Numeric::SignedInteger(1),
        Numeric::Floating(1.0f32.to_bits())
    );
}

#[test]
fn numeric_float_epsilon_equality() {
    let f = |x: f32| Numeric::Floating(x.to_bits());
    assert_eq!(f(1.0), f(1.0 + 0.00005));
    assert_ne!(f(1.0), f(1.001));
    assert_eq!(f(0.0), f(-0.0));
    assert_eq!(f(0.000012), f(0.000013));
    assert_ne!(f(f32::NAN), f(f32::NAN));
    assert_ne!(f(f32::INFINITY), f(f32::INFINITY));
    assert_ne!(f(1.0), f(f32::INFINITY));
}

#[test]
fn object_equality_recursive() {
    let a = PDFObject::array(vec![
        PDFObject::plain_string("x"),
        PDFObject::number(Numeric::UnsignedInteger(3)),
    ]);
    let b = PDFObject::array(vec![
        PDFObject::plain_string("x"),
        PDFObject::number(Numeric::UnsignedInteger(3)),
    ]);
    let c = PDFObject::array(vec![
        PDFObject::plain_string("y"),
        PDFObject::number(Numeric::UnsignedInteger(3)),
    ]);
    assert_eq!(a, b);
    assert_ne!(a, c);
    assert_ne!(a, PDFObject::null());
}

#[test]
fn equal_float_free_objects_hash_equal() {
    let mk = || {
        PDFObject::dict(vec![
            (
                PDFObject::name("A"),
                PDFObject::array(vec![
                    PDFObject::boolean(false),
                    PDFObject::plain_string("v"),
                ]),
            ),
            (
                PDFObject::name("B"),
                PDFObject::number(Numeric::SignedInteger(-9)),
            ),
        ])
    };
    let a = mk();
    let b = mk();
    assert_eq!(a, b);
    assert_eq!(a.hash_u64(), b.hash_u64());
}

#[test]
fn float_hash_uses_bit_pattern() {
    // Two floats equal within epsilon but with different bit patterns are
    // equal as numerics; their hashes are allowed to differ, so nothing may
    // be concluded from them, and none is asserted here beyond each hash
    // being a function of the bits.
    let x = Numeric::Floating(1.0f32.to_bits());
    let y = Numeric::Floating((1.0f32 + 0.00005).to_bits());
    assert_eq!(x, y);
    let hx1 = x.hash_u64();
    let hx2 = Numeric::Floating(1.0f32.to_bits()).hash_u64();
    assert_eq!(hx1, hx2);
    let _ = y.hash_u64();
}

#[test]
fn dict_equality_is_order_sensitive() {
    let ab = PDFObject::dict(vec![
        (PDFObject::name("A"), PDFObject::boolean(true)),
        (PDFObject::name("B"), PDFObject::boolean(false)),
    ]);
    let ba = PDFObject::dict(vec![
        (PDFObject::name("B"), PDFObject::boolean(false)),
        (PDFObject::name("A"), PDFObject::boolean(true)),
    ]);
    assert_ne!(ab, ba);
}

#[test]
fn float_text_parses_back_to_the_same_float() {
    // The serialized text is the exact decimal expansion of the encoded
    // value, so parsing it back must give exactly the same bits.
    let cases: [f32; 12] = [
        0.0, -0.0, 1.0, -1.5, 0.1, 3.14159, 1e-30, -2.5e-12, 3.4e38, 1.17e-38, 1e-44, 123456.78,
    ];
    for x in cases {
        let t = PDFObject::number(Numeric::Floating(x.to_bits())).to_text();
        let back: f32 = t.parse().unwrap();
        assert_eq!(back.to_bits(), x.to_bits(), "text {t}");
    }
}

#[test]
fn float_epsilon_matches_exact_difference() {
    // For values of similar magnitude the f64 difference of two f32s is
    // exact, so it decides |a - b| < 1e-4 exactly.
    let mut k: u64 = 0x9E3779B97F4A7C15;
    for _ in 0..2000 {
        k = k
            .wrapping_mul(6364136223846793005)
            .wrapping_add(1442695040888963407);
        let a = ((k >> 16) & 0xFFFF) as f32 * 1e-5;
        let b = ((k >> 36) & 0xFFFF) as f32 * 1e-5;
        let exact = (a as f64 - b as f64).abs() < 1e-4;
        let na = Numeric::Floating(a.to_bits());
        let nb = Numeric::Floating(b.to_bits());
        assert_eq!(na == nb, exact, "a={a} b={b}");
    }
}
