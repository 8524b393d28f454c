use iso8583::Bitmap;

#[test]
fn test_bmp() {
    let mut bmp = Bitmap::new(0, 0, 0);
    bmp.set_on(4);
    bmp.set_on(11);
    bmp.set_on(64);
    bmp.set_on(99);
    bmp.set_on(133);
    bmp.set_on(6);

    for i in 1..193 {
        if bmp.is_on(i) {
            println!("{} is on ", i)
        }
    }
}

#[test]
fn bitmap_round_trip_exact() {
    let positions: [u32; 6] = [4, 11, 64, 99, 133, 6];
    let mut bmp = Bitmap::new(0, 0, 0);
    for p in positions {
        bmp.set_on(p);
    }
    // exactly the set positions are on, plus the indicators 1 and 65 that the
    // cascade demands for positions above 64 and 128
    for q in 1..193u32 {
        let expected = positions.contains(&q) || q == 1 || q == 65;
        assert_eq!(bmp.is_on(q), expected, "position {}", q);
    }
}

#[test]
fn cascade_sets_indicators() {
    let mut bmp = Bitmap::new(0, 0, 0);
    bmp.set_on(70);
    assert!(bmp.is_on(1));
    let mut bmp2 = Bitmap::new(0, 0, 0);
    bmp2.set_on(150);
    assert!(bmp2.is_on(65));
    assert!(bmp2.is_on(1));
}

#[test]
fn as_vec_lengths_follow_segments() {
    let mut primary_only = Bitmap::new(0, 0, 0);
    primary_only.set_on(2);
    assert_eq!(primary_only.as_vec().len(), 8);

    let mut with_secondary = Bitmap::new(0, 0, 0);
    with_secondary.set_on(70);
    assert_eq!(with_secondary.as_vec().len(), 16);

    let mut with_tertiary = Bitmap::new(0, 0, 0);
    with_tertiary.set_on(150);
    assert_eq!(with_tertiary.as_vec().len(), 24);
}

#[test]
fn hex_string_is_lowercase_48_chars() {
    let bmp = Bitmap::new(0x7034000000000000, 0, 0);
    assert_eq!(
        bmp.hex_string(),
        "703400000000000000000000000000000000000000000000"
    );
}

#[test]
fn from_vec_round_trip() {
    let mut bmp = Bitmap::new(0, 0, 0);
    bmp.set_on(2);
    bmp.set_on(3);
    bmp.set_on(11);
    bmp.set_on(14);
    bmp.set_on(52);
    bmp.set_on(96);
    let bytes = bmp.as_vec();
    assert_eq!(bytes.len(), 16);
    let back = Bitmap::from_vec(&bytes);
    for q in 1..193u32 {
        assert_eq!(back.is_on(q), bmp.is_on(q), "position {}", q);
    }
}
