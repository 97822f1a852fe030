use buffa_codegen::reprs::{CompactStr, DecodeError, EcoStr, LocalBytes, LocalStr};

#[test]
fn local_str_from_wire_accepts_utf8() {
    let s = LocalStr::from_wire("héllo".as_bytes()).unwrap();
    assert_eq!(s.as_str(), "héllo");
    assert_eq!(&*s, "héllo");
    let r: &str = s.as_ref();
    assert_eq!(r, "héllo");
}

#[test]
fn local_str_from_wire_rejects_bad_utf8() {
    assert_eq!(
        LocalStr::from_wire(&[0x66, 0xff, 0x6f]),
        Err(DecodeError::InvalidUtf8)
    );
    assert_eq!(
        LocalStr::from_wire(&[0xe2, 0x82]),
        Err(DecodeError::InvalidUtf8)
    );
}

#[test]
fn local_str_conversions() {
    let a: LocalStr = String::from("x").into();
    let b: LocalStr = "x".into();
    assert_eq!(a, b);
    assert_eq!(LocalStr::default().as_str(), "");
}

#[test]
fn local_bytes_keeps_any_payload() {
    let b = LocalBytes::from_wire(&[0, 0xff, 7]).unwrap();
    assert_eq!(b.as_slice(), &[0, 0xff, 7]);
    assert_eq!(&*b, &[0u8, 0xff, 7][..]);
    let r: &[u8] = b.as_ref();
    assert_eq!(r.len(), 3);
    let c: LocalBytes = vec![0u8, 0xff, 7].into();
    assert_eq!(b, c);
    assert!(LocalBytes::from_wire(&[]).unwrap().is_empty());
}

#[test]
fn eco_str_round_trips_text() {
    let e = EcoStr::from_wire("ünïcode text".as_bytes()).unwrap();
    assert_eq!(e.as_str(), "ünïcode text");
    assert_eq!(&*e, "ünïcode text");
    let f: EcoStr = String::from("ünïcode text").into();
    let g: EcoStr = "ünïcode text".into();
    assert_eq!(e, f);
    assert_eq!(f, g);
    assert_eq!(EcoStr::from_wire(&[0xc0]), Err(DecodeError::InvalidUtf8));
    assert_eq!(EcoStr::from_text(String::new()).as_str(), "");
}

#[test]
fn compact_str_round_trips_text() {
    let long = "a string long enough to leave the inline buffer";
    let c = CompactStr::from_wire(long.as_bytes()).unwrap();
    assert_eq!(c.as_str(), long);
    let short = CompactStr::from_str_slice("tiny");
    assert_eq!(&*short, "tiny");
    let r: &str = short.as_ref();
    assert_eq!(r, "tiny");
    let d: CompactStr = String::from(long).into();
    assert_eq!(c, d);
    assert_eq!(
        CompactStr::from_wire(&[0xed, 0xa0, 0x80]),
        Err(DecodeError::InvalidUtf8)
    );
}
