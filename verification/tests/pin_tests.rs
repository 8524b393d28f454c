use iso8583::{generate_pin_block, PinFormat};

#[test]
fn test_iso0() {
    match generate_pin_block(
        &PinFormat::ISO0,
        "1234",
        "4111111111111111",
        "e0f4543f3e2a2c5ffc7e5e5a222e3e4d",
    ) {
        Ok(p) => {
            assert_eq!(hex::encode(p), "6042012526a9c2e0");
        }
        Err(e) => {
            assert!(false, "{}", e.msg);
        }
    }
}

#[test]
fn unsupported_format_errs() {
    let r = generate_pin_block(
        &PinFormat::ISO1,
        "1234",
        "4111111111111111",
        "e0f4543f3e2a2c5ffc7e5e5a222e3e4d",
    );
    assert!(r.is_err());
}

#[test]
fn longer_pin_vector_is_8_bytes() {
    let r = generate_pin_block(
        &PinFormat::ISO0,
        "123456789",
        "4111111111111111",
        "e0f4543f3e2a2c5ffc7e5e5a222e3e4d",
    )
    .unwrap();
    assert_eq!(r.len(), 8);
}
