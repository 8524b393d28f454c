use iso8583::MLIType;

fn round_trip(mli: &MLIType, n: usize, width: usize) {
    let prefix = mli.create(&n).unwrap();
    assert_eq!(prefix.len(), width);
    let (payload, consumed) = mli.parse(&prefix, 0).unwrap().unwrap();
    assert_eq!(payload as usize, n);
    assert_eq!(consumed, width);
}

#[test]
fn mli_round_trip_all_variants() {
    for n in [0usize, 1, 2, 100, 255, 256, 65000] {
        round_trip(&MLIType::MLI2E, n, 2);
        round_trip(&MLIType::MLI2I, n, 2);
        round_trip(&MLIType::MLI4E, n, 4);
        round_trip(&MLIType::MLI4I, n, 4);
    }
    round_trip(&MLIType::MLI4E, 1_000_000, 4);
    round_trip(&MLIType::MLI4I, 1_000_000, 4);
}

#[test]
fn mli_2e_exact_bytes() {
    let prefix = MLIType::MLI2E.create(&52usize).unwrap();
    assert_eq!(prefix, vec![0u8, 52u8]);
}

#[test]
fn mli_2i_includes_own_bytes() {
    let prefix = MLIType::MLI2I.create(&52usize).unwrap();
    assert_eq!(prefix, vec![0u8, 54u8]);
}

#[test]
fn mli_4i_includes_own_bytes() {
    let prefix = MLIType::MLI4I.create(&300usize).unwrap();
    assert_eq!(prefix, vec![0u8, 0u8, 1u8, 48u8]);
}

#[test]
fn mli_short_read_is_recoverable() {
    let buf = vec![0u8];
    assert!(MLIType::MLI2E.parse(&buf, 0).unwrap().is_none());
    let buf4 = vec![0u8, 0, 1];
    assert!(MLIType::MLI4E.parse(&buf4, 0).unwrap().is_none());
}

#[test]
fn mli_inclusive_prefix_below_width_is_an_error() {
    let buf = vec![0u8, 1u8];
    assert!(MLIType::MLI2I.parse(&buf, 0).is_err());
    let buf4 = vec![0u8, 0, 0, 3];
    assert!(MLIType::MLI4I.parse(&buf4, 0).is_err());
}

#[test]
fn mli_create_oversize_errs() {
    assert!(MLIType::MLI2E.create(&70000usize).is_err());
    assert!(MLIType::MLI2I.create(&65534usize).is_err());
}
