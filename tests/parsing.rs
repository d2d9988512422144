use pixel_dither::color::{default_palette_hex, parse_hex, parse_palette, PaletteParseError, Rgb8};

#[test]
fn parse_hex_rejects_invalid_digit() {
    assert_eq!(parse_hex("zz0000"), Err(PaletteParseError::InvalidDigit));
}

#[test]
fn parse_hex_rejects_wrong_length() {
    assert_eq!(parse_hex("fff"), Err(PaletteParseError::WrongLength));
    assert_eq!(parse_hex(""), Err(PaletteParseError::WrongLength));
    assert_eq!(parse_hex("#fff7ff"), Err(PaletteParseError::WrongLength));
}

#[test]
fn parse_hex_reads_each_channel() {
    assert_eq!(parse_hex("fff7ff"), Ok(Rgb8 { r: 255, g: 247, b: 255 }));
    assert_eq!(parse_hex("1b112c"), Ok(Rgb8 { r: 27, g: 17, b: 44 }));
    assert_eq!(parse_hex("00A09f"), Ok(Rgb8 { r: 0, g: 160, b: 159 }));
}

#[test]
fn parse_hex_rejects_signs_and_non_ascii() {
    assert_eq!(parse_hex("+fffff"), Err(PaletteParseError::InvalidDigit));
    assert_eq!(parse_hex("ff ff0"), Err(PaletteParseError::InvalidDigit));
    // two bytes for the accented letter: six bytes in all
    assert_eq!(parse_hex("\u{e9}1234"), Err(PaletteParseError::InvalidDigit));
    // three bytes for the euro sign: six bytes in all
    assert_eq!(parse_hex("\u{20ac}123"), Err(PaletteParseError::InvalidDigit));
}

#[test]
fn parse_palette_keeps_order() {
    let entries = vec!["000000".to_string(), "ff0080".to_string()];
    assert_eq!(
        parse_palette(&entries),
        Ok(vec![Rgb8 { r: 0, g: 0, b: 0 }, Rgb8 { r: 255, g: 0, b: 128 }])
    );
}

#[test]
fn parse_palette_reports_first_failure() {
    let entries = vec!["000000".to_string(), "fff".to_string(), "zz0000".to_string()];
    assert_eq!(parse_palette(&entries), Err(PaletteParseError::WrongLength));
    let entries = vec!["zz0000".to_string(), "fff".to_string()];
    assert_eq!(parse_palette(&entries), Err(PaletteParseError::InvalidDigit));
}

#[test]
fn parse_palette_of_nothing_is_empty() {
    assert_eq!(parse_palette(&Vec::new()), Ok(Vec::new()));
}

#[test]
fn default_palette_parses() {
    let entries = default_palette_hex();
    assert_eq!(entries.len(), 48);
    assert_eq!(entries[0], "1b112c");
    assert_eq!(entries[8], "fff7ff");
    assert_eq!(entries[47], "c3ebe3");
    let colors = parse_palette(&entries).unwrap();
    assert_eq!(colors.len(), 48);
    assert_eq!(colors[8], Rgb8 { r: 255, g: 247, b: 255 });
}
