use pdfgen::gen::Gen;
use pdfgen::pdfobj::PDFObject;

#[test]
fn header_with_override_is_spliced_verbatim() {
    let mut g = Gen::from_seed(7);
    assert_eq!(g.header(Some("9.9")), "%PDF-9.9");
    assert_eq!(g.header(Some("bogus")), "%PDF-bogus");
}

#[test]
fn header_without_override_matches_and_covers_all_digits() {
    let mut g = Gen::from_seed(42);
    let mut seen = [false; 8];
    for _ in 0..1000 {
        let h = g.header(None);
        assert!(h.len() == 8);
        assert!(h.starts_with("%PDF-1."));
        let d = h.as_bytes()[7];
        assert!((b'0'..=b'7').contains(&d));
        seen[(d - b'0') as usize] = true;
    }
    assert!(seen.iter().all(|&s| s));
}

#[test]
fn string_respects_max_len() {
    let mut g = Gen::from_seed(3);
    for max_len in [1u32, 2, 5, 100] {
        for _ in 0..200 {
            let o = g.string(max_len);
            let t = match &o {
                PDFObject::Str(p) => p.clone(),
                _ => panic!("string() must build a Str"),
            };
            let inner = if t.starts_with('(') {
                assert!(t.ends_with(')'));
                t.len() - 2
            } else {
                assert!(t.starts_with('<') && t.ends_with('>'));
                let digits = t.len() - 2;
                assert!(digits % 2 == 0);
                digits / 2
            };
            assert!(inner < max_len as usize);
        }
    }
}

#[test]
fn name_respects_max_len_and_prefix() {
    let mut g = Gen::from_seed(4);
    for _ in 0..200 {
        let o = g.name(30);
        match &o {
            PDFObject::Name(p) => {
                assert!(p.starts_with('/'));
                assert!(p.len() - 1 < 30);
                assert!(p[1..].chars().all(|c| c.is_ascii_alphanumeric()));
            }
            _ => panic!("name() must build a Name"),
        }
    }
}

#[test]
fn array_and_dict_respect_budget() {
    let mut g = Gen::from_seed(5);
    for _ in 0..100 {
        match g.array(5) {
            PDFObject::Arr(v) => assert!(v.len() < 5),
            _ => panic!("array() must build an Arr"),
        }
        match g.dict(5) {
            PDFObject::Dict(d) => assert!(d.len() < 5),
            _ => panic!("dict() must build a Dict"),
        }
    }
}

#[test]
fn dict_keys_are_unique_names() {
    let mut g = Gen::from_seed(6);
    for _ in 0..100 {
        let o = g.dict(10);
        let entries = match o {
            PDFObject::Dict(d) => d,
            _ => panic!("dict() must build a Dict"),
        };
        for (k, _) in &entries {
            assert!(matches!(k, PDFObject::Name(_)));
        }
        for i in 0..entries.len() {
            for j in 0..i {
                assert_ne!(entries[i].0, entries[j].0);
            }
        }
    }
}

#[test]
fn bytes_respects_max_len_and_byte_range() {
    let mut g = Gen::from_seed(8);
    for _ in 0..100 {
        let s = g.bytes(50);
        assert!(s.chars().count() < 50);
        assert!(s.chars().all(|c| (c as u32) < 256));
    }
}

#[test]
fn booleans_and_numbers_have_the_right_shape() {
    let mut g = Gen::from_seed(9);
    for _ in 0..50 {
        assert!(matches!(g.boolean(), PDFObject::Boolean(_)));
        let n = g.number();
        let o = PDFObject::number(n);
        let t = o.to_text();
        assert!(!t.is_empty());
    }
}

#[test]
fn generated_objects_serialize() {
    let mut g = Gen::from_seed(10);
    for _ in 0..50 {
        let a = g.array(6);
        let t = a.to_text();
        assert!(t.starts_with('[') && t.ends_with(']'));
        let d = g.dict(6);
        let t = d.to_text();
        assert!(t.starts_with("<< ") && t.ends_with(">>\n"));
    }
}
