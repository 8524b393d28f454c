use iso8583::{
    named_spec, Bitmap, ChildField, Encoding, Field, FieldRef, FixedField, Spec, VarField,
};

fn sample_payload() -> Vec<u8> {
    // mti 1100; bitmap with positions 2, 3, 11, 14; pan var-LL; proc_code,
    // stan and expiration_date fixed
    let mut payload: Vec<u8> = Vec::new();
    payload.extend_from_slice(b"1100");
    payload.extend_from_slice(&hex::decode("6024000000000000").unwrap());
    payload.extend_from_slice(b"12");
    payload.extend_from_slice(b"123456789012");
    payload.extend_from_slice(b"004000");
    payload.extend_from_slice(b"779581");
    payload.extend_from_slice(b"2204");
    payload
}

#[test]
fn registry_knows_sample_spec_only() {
    assert!(named_spec("SampleSpec").is_ok());
    assert!(named_spec("OtherSpec").is_err());
    assert_eq!(named_spec("SampleSpec").unwrap().name(), "SampleSpec");
}

#[test]
fn simple_echo_parse_and_reassemble() {
    let spec = named_spec("SampleSpec").unwrap();
    let payload = sample_payload();
    let msg = spec.parse(&payload).unwrap();
    assert_eq!(msg.get_field_value(2).unwrap(), "123456789012");
    assert_eq!(msg.get_field_value(3).unwrap(), "004000");
    assert_eq!(msg.get_field_value(11).unwrap(), "779581");
    assert_eq!(msg.get_field_value(14).unwrap(), "2204");
    let mti = String::from("message_type");
    assert_eq!(msg.fd_map.get(&mti).unwrap(), b"1100");
    // the echo: assembling the parsed message reproduces the wire bytes
    let out = spec.assemble(&msg).unwrap();
    assert_eq!(out, payload);
}

#[test]
fn undeclared_on_position_fails_parse() {
    // position 4 on without a child declared there
    let spec = named_spec("SampleSpec").unwrap();
    let mut payload: Vec<u8> = Vec::new();
    payload.extend_from_slice(b"1100");
    payload.extend_from_slice(&hex::decode("7034000000000000").unwrap());
    payload.extend_from_slice(b"12");
    payload.extend_from_slice(b"123456789012");
    payload.extend_from_slice(b"004000");
    payload.extend_from_slice(b"779581");
    payload.extend_from_slice(b"2204");
    assert!(spec.parse(&payload).is_err());
}

fn extended_spec() -> Spec {
    let children = vec![
        ChildField::Var(VarField {
            name: String::from("pan"),
            len: 2,
            encoding: Encoding::ASCII,
            len_encoding: Encoding::ASCII,
            position: 2,
        }),
        ChildField::Fixed(FixedField {
            name: String::from("proc_code"),
            len: 6,
            encoding: Encoding::ASCII,
            position: 3,
        }),
        ChildField::Fixed(FixedField {
            name: String::from("stan"),
            len: 6,
            encoding: Encoding::ASCII,
            position: 11,
        }),
        ChildField::Fixed(FixedField {
            name: String::from("expiration_date"),
            len: 4,
            encoding: Encoding::ASCII,
            position: 14,
        }),
        ChildField::Fixed(FixedField {
            name: String::from("pin_data"),
            len: 16,
            encoding: Encoding::ASCII,
            position: 52,
        }),
        ChildField::Fixed(FixedField {
            name: String::from("additional_data"),
            len: 4,
            encoding: Encoding::ASCII,
            position: 96,
        }),
    ];
    let fields = vec![
        Field::Fixed(FixedField {
            name: String::from("message_type"),
            len: 4,
            encoding: Encoding::ASCII,
            position: 0,
        }),
        Field::Bmp(iso8583::BmpField {
            name: String::from("bitmap"),
            encoding: Encoding::ASCII,
            children,
        }),
    ];
    Spec::new(String::from("ExtendedSpec"), fields)
}

#[test]
fn secondary_bitmap_scenario() {
    let spec = extended_spec();
    let mut bmp = Bitmap::new(0, 0, 0);
    for p in [2u32, 3, 11, 14, 52, 96] {
        bmp.set_on(p);
    }
    let bmp_bytes = bmp.as_vec();
    assert_eq!(bmp_bytes.len(), 16);
    assert!(bmp.is_on(1));

    let mut payload: Vec<u8> = Vec::new();
    payload.extend_from_slice(b"1100");
    payload.extend_from_slice(&bmp_bytes);
    payload.extend_from_slice(b"12");
    payload.extend_from_slice(b"123456789012");
    payload.extend_from_slice(b"004000");
    payload.extend_from_slice(b"779581");
    payload.extend_from_slice(b"2204");
    payload.extend_from_slice(b"0102030405060708");
    payload.extend_from_slice(b"1234");

    let msg = spec.parse(&payload).unwrap();
    for name in [
        "message_type",
        "pan",
        "proc_code",
        "stan",
        "expiration_date",
        "pin_data",
        "additional_data",
    ] {
        let key = String::from(name);
        assert!(msg.fd_map.contains_key(&key), "missing {}", name);
    }
    let absent = String::from("bitmap");
    assert!(!msg.fd_map.contains_key(&absent));
    assert_eq!(msg.get_field_value(52).unwrap(), "0102030405060708");
    assert_eq!(msg.get_field_value(96).unwrap(), "1234");

    // round trip through assemble
    let out = spec.assemble(&msg).unwrap();
    assert_eq!(out, payload);
}

#[test]
fn bad_encoding_names_the_field() {
    // a VarField declared ASCII receives the byte 0xff
    let spec = named_spec("SampleSpec").unwrap();
    let mut payload: Vec<u8> = Vec::new();
    payload.extend_from_slice(b"1100");
    payload.extend_from_slice(&hex::decode("4000000000000000").unwrap());
    payload.extend_from_slice(b"02");
    payload.push(0xff);
    payload.push(0x31);
    match spec.parse(&payload) {
        Err(err) => assert!(err.msg.contains("pan"), "message was: {}", err.msg),
        Ok(_) => panic!("parse should have failed"),
    }
}

#[test]
fn residual_bytes_are_tolerated() {
    let spec = named_spec("SampleSpec").unwrap();
    let mut payload = sample_payload();
    payload.extend_from_slice(b"junk");
    let msg = spec.parse(&payload).unwrap();
    assert_eq!(msg.get_field_value(11).unwrap(), "779581");
}

#[test]
fn short_frame_fails_parse() {
    let spec = named_spec("SampleSpec").unwrap();
    let payload = b"1100".to_vec();
    assert!(spec.parse(&payload).is_err());
}

#[test]
fn missing_field_data_fails_assemble() {
    let spec = named_spec("SampleSpec").unwrap();
    let payload = sample_payload();
    let mut msg = spec.parse(&payload).unwrap();
    // turn on a position whose content is absent
    msg.bmp.set_on(14);
    msg.fd_map = {
        let mut m = iso8583::FieldMap::new();
        m.insert(String::from("message_type"), b"1100".to_vec());
        m.insert(String::from("pan"), b"123456789012".to_vec());
        m.insert(String::from("proc_code"), b"004000".to_vec());
        m.insert(String::from("stan"), b"779581".to_vec());
        m
    };
    assert!(spec.assemble(&msg).is_err());
}

#[test]
fn field_by_name_resolves_tops_and_children() {
    let spec = named_spec("SampleSpec").unwrap();
    let mti = String::from("message_type");
    match spec.field_by_name(&mti).unwrap() {
        FieldRef::Top(f) => assert_eq!(f.name(), "message_type"),
        FieldRef::Child(_) => panic!("mti is a top-level field"),
    }
    let pan = String::from("pan");
    match spec.field_by_name(&pan).unwrap() {
        FieldRef::Child(c) => assert_eq!(c.name(), "pan"),
        FieldRef::Top(_) => panic!("pan is a bitmap child"),
    }
    let nope = String::from("nope");
    assert!(spec.field_by_name(&nope).is_err());
}

#[test]
fn by_position_finds_children() {
    let spec = named_spec("SampleSpec").unwrap();
    let bmp = spec.first_bmp().unwrap();
    assert_eq!(bmp.by_position(2).unwrap().name(), "pan");
    assert_eq!(bmp.by_position(11).unwrap().name(), "stan");
    assert!(bmp.by_position(4).is_err());
}

#[test]
fn to_raw_inverts_to_string() {
    let spec = named_spec("SampleSpec").unwrap();
    let bmp = spec.first_bmp().unwrap();
    let pan = bmp.by_position(2).unwrap();
    let raw = pan.to_raw("123456789012").unwrap();
    assert_eq!(raw, b"123456789012".to_vec());
    assert_eq!(pan.to_string(&raw), "123456789012");
}

#[test]
fn bcd_field_round_trip() {
    let f = ChildField::Fixed(FixedField {
        name: String::from("amount"),
        len: 6,
        encoding: Encoding::BCD,
        position: 4,
    });
    let raw = f.to_raw("123456").unwrap();
    assert_eq!(raw, vec![0x12, 0x34, 0x56]);
    assert_eq!(f.to_string(&raw), "123456");
}

#[test]
fn binary_field_renders_hex() {
    let f = ChildField::Fixed(FixedField {
        name: String::from("icc"),
        len: 4,
        encoding: Encoding::BINARY,
        position: 55,
    });
    let raw = f.to_raw("deadbeef").unwrap();
    assert_eq!(raw, vec![0xde, 0xad, 0xbe, 0xef]);
    assert_eq!(f.to_string(&raw), "deadbeef");
    assert!(f.to_raw("xyz").is_err());
}

#[test]
fn position_offsets_increase_with_position() {
    // the byte offset of each child in the assembled frame grows with its
    // position
    let spec = named_spec("SampleSpec").unwrap();
    let payload = sample_payload();
    let msg = spec.parse(&payload).unwrap();
    let out = spec.assemble(&msg).unwrap();
    let find = |needle: &[u8]| -> usize {
        out.windows(needle.len())
            .position(|w| w == needle)
            .unwrap()
    };
    let off_pan = find(b"123456789012");
    let off_proc = find(b"004000");
    let off_stan = find(b"779581");
    let off_exp = find(b"2204");
    assert!(off_pan < off_proc && off_proc < off_stan && off_stan < off_exp);
}

#[test]
fn ebcdic_field_round_trip_and_rejection() {
    let f = ChildField::Fixed(FixedField {
        name: String::from("track"),
        len: 4,
        encoding: Encoding::EBCDIC,
        position: 35,
    });
    // "AB12" in IBM-037 is c1 c2 f1 f2
    let raw = f.to_raw("AB12").unwrap();
    assert_eq!(raw, vec![0xc1, 0xc2, 0xf1, 0xf2]);
    assert_eq!(f.to_string(&raw), "AB12");
    // 0x00 lies outside the mirrored subset
    assert!(f.to_raw("\u{1}").is_err());

    let spec = Spec::new(
        String::from("EbcdicSpec"),
        vec![
            Field::Fixed(FixedField {
                name: String::from("message_type"),
                len: 4,
                encoding: Encoding::EBCDIC,
                position: 0,
            }),
            Field::Bmp(iso8583::BmpField {
                name: String::from("bitmap"),
                encoding: Encoding::ASCII,
                children: vec![f],
            }),
        ],
    );
    let mut payload: Vec<u8> = vec![0xf1, 0xf1, 0xf0, 0xf0];
    payload.extend_from_slice(&hex::decode("0000000020000000").unwrap());
    payload.extend_from_slice(&[0xc1, 0xc2, 0xf1, 0xf2]);
    let msg = spec.parse(&payload).unwrap();
    assert_eq!(msg.get_field_value(35).unwrap(), "AB12");
    assert_eq!(spec.assemble(&msg).unwrap(), payload);

    // a byte outside the EBCDIC subset is rejected, naming the field
    let mut bad = payload.clone();
    bad[12] = 0x00;
    match spec.parse(&bad) {
        Err(e) => assert!(e.msg.contains("track")),
        Ok(_) => panic!("parse should have failed"),
    }
}

#[test]
fn field_map_rebinding_supersedes() {
    let mut m = iso8583::FieldMap::new();
    let key = String::from("stan");
    m.insert(key.clone(), b"111111".to_vec());
    m.insert(key.clone(), b"222222".to_vec());
    assert_eq!(m.get(&key).unwrap(), b"222222");
    let other = String::from("pan");
    assert!(m.get(&other).is_none());
}
