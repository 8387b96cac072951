use ongeki_data::numeral::i32_decimal;
use ongeki_data::write_as_utf16;

fn decode_utf16le(bytes: &[u8]) -> String {
    assert_eq!(bytes.len() % 2, 0);
    let units: Vec<u16> = bytes
        .chunks(2)
        .map(|pair| (pair[0] as u16) | ((pair[1] as u16) << 8))
        .collect();
    String::from_utf16(&units).expect("well-formed UTF-16")
}

#[test]
fn ascii_bytes_little_endian() {
    let mut out: Vec<u8> = Vec::new();
    write_as_utf16(&mut out, "AB");
    assert_eq!(out, vec![0x41, 0x00, 0x42, 0x00]);
}

#[test]
fn japanese_bytes_little_endian() {
    let mut out: Vec<u8> = Vec::new();
    write_as_utf16(&mut out, "あ");
    assert_eq!(out, vec![0x42, 0x30]);
}

#[test]
fn supplementary_plane_uses_four_bytes() {
    let mut out: Vec<u8> = Vec::new();
    write_as_utf16(&mut out, "😀");
    assert_eq!(out.len(), 4);
    assert_eq!(out, vec![0x3D, 0xD8, 0x00, 0xDE]);
}

#[test]
fn round_trip_restores_input() {
    let samples = vec![
        "",
        "hello",
        "星咲あかり",
        "タブ\tと改行\n",
        "基本面の外 😀𠮷 も往復する",
    ];
    for s in samples {
        let mut out: Vec<u8> = Vec::new();
        write_as_utf16(&mut out, s);
        assert_eq!(decode_utf16le(&out), s);
    }
}

#[test]
fn appends_after_existing_bytes() {
    let mut out: Vec<u8> = vec![0xFF, 0xFE];
    write_as_utf16(&mut out, "A");
    assert_eq!(out, vec![0xFF, 0xFE, 0x41, 0x00]);
}

#[test]
fn decimal_rendering() {
    assert_eq!(i32_decimal(0), "0");
    assert_eq!(i32_decimal(7), "7");
    assert_eq!(i32_decimal(42), "42");
    assert_eq!(i32_decimal(1300), "1300");
    assert_eq!(i32_decimal(-5), "-5");
    assert_eq!(i32_decimal(2147483647), "2147483647");
    assert_eq!(i32_decimal(-2147483648), "-2147483648");
}
