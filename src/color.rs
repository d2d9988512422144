use vstd::prelude::*;
use vstd::string::StringSliceAdditionalSpecFns;
use vstd::utf8::encode_utf8;

verus! {

/// A color as three 8-bit display channels.
#[derive(Clone, Copy, Debug, PartialEq, Eq, Structural)]
pub struct Rgb8 {
    pub r: u8,
    pub g: u8,
    pub b: u8,
}

/// A color with its alpha channel, as stored in a pixel buffer.
#[derive(Clone, Copy, Debug, PartialEq, Eq, Structural)]
pub struct Rgba8 {
    pub r: u8,
    pub g: u8,
    pub b: u8,
    pub a: u8,
}

/// Why a palette entry could not be read as a color.
#[derive(Clone, Copy, Debug, PartialEq, Eq, Structural)]
pub enum PaletteParseError {
    /// The entry does not hold exactly six bytes.
    WrongLength,
    /// One of the six bytes is not a hexadecimal digit.
    InvalidDigit,
}

pub open spec fn is_hex_digit(c: u8) -> bool {
    (48 <= c <= 57) || (97 <= c <= 102) || (65 <= c <= 70)
}

/// The value of a hexadecimal digit (either case).
pub open spec fn digit_value(c: u8) -> int {
    if 48 <= c <= 57 {
        c - 48
    } else if 97 <= c <= 102 {
        c - 87
    } else {
        c - 55
    }
}

/// Six hexadecimal digits, nothing else.
pub open spec fn is_hex_color(s: Seq<u8>) -> bool {
    s.len() == 6 && forall|i: int| 0 <= i < 6 ==> is_hex_digit(#[trigger] s[i])
}

/// The channel written by the digit pair that starts at `2 * k`.
pub open spec fn channel_of(s: Seq<u8>, k: int) -> int {
    16 * digit_value(s[2 * k]) + digit_value(s[2 * k + 1])
}

/// The color that six hexadecimal digits denote: red, green, blue pairs.
pub open spec fn hex_color(s: Seq<u8>) -> Rgb8 {
    Rgb8 { r: channel_of(s, 0) as u8, g: channel_of(s, 1) as u8, b: channel_of(s, 2) as u8 }
}

/// The outcome of reading one palette entry.
pub open spec fn parse_hex_spec(s: Seq<u8>) -> Result<Rgb8, PaletteParseError> {
    if s.len() != 6 {
        Err(PaletteParseError::WrongLength)
    } else if !is_hex_color(s) {
        Err(PaletteParseError::InvalidDigit)
    } else {
        Ok(hex_color(s))
    }
}

fn hex_digit(c: u8) -> (r: Option<u8>)
    ensures
        r.is_some() == is_hex_digit(c),
        r.is_some() ==> r.unwrap() as int == digit_value(c) && r.unwrap() < 16,
{
    if 48 <= c && c <= 57 {
        Some(c - 48)
    } else if 97 <= c && c <= 102 {
        Some(c - 87)
    } else if 65 <= c && c <= 70 {
        Some(c - 55)
    } else {
        None
    }
}

fn hex_pair(s: &[u8], k: usize) -> (r: Option<u8>)
    requires
        s@.len() == 6,
        k < 3,
    ensures
        r.is_some() == (is_hex_digit(s@[2 * k as int]) && is_hex_digit(s@[2 * k as int + 1])),
        r.is_some() ==> r.unwrap() as int == channel_of(s@, k as int),
{
    let hi = hex_digit(s[2 * k]);
    let lo = hex_digit(s[2 * k + 1]);
    match (hi, lo) {
        (Some(h), Some(l)) => Some(16 * h + l),
        _ => None,
    }
}

/// The bytes of a palette entry held as a `String`.
pub open spec fn entry_bytes(s: String) -> Seq<u8> {
    encode_utf8(s@)
}

/// Reads a palette entry written as six hexadecimal digits (no leading `#`),
/// two for each of red, green and blue.
pub fn parse_hex(hex: &str) -> (r: Result<Rgb8, PaletteParseError>)
    ensures
        r == parse_hex_spec(hex.spec_bytes()),
{
    let s = hex.as_bytes();
    if s.len() != 6 {
        return Err(PaletteParseError::WrongLength);
    }
    let r = hex_pair(s, 0);
    let g = hex_pair(s, 1);
    let b = hex_pair(s, 2);
    match (r, g, b) {
        (Some(r), Some(g), Some(b)) => {
            assert(is_hex_color(s@)) by {
                assert forall|i: int| 0 <= i < 6 implies is_hex_digit(#[trigger] s@[i]) by {
                    assert(i == 2 * (i / 2) || i == 2 * (i / 2) + 1);
                }
            }
            Ok(Rgb8 { r, g, b })
        },
        _ => Err(PaletteParseError::InvalidDigit),
    }
}

/// Reads every palette entry in order; the first entry that fails decides the
/// error, and no partial palette is returned.
pub fn parse_palette(entries: &Vec<String>) -> (r: Result<Vec<Rgb8>, PaletteParseError>)
    ensures
        match r {
            Ok(colors) => colors@.len() == entries@.len() && forall|i: int|
                0 <= i < entries@.len() ==> parse_hex_spec(#[trigger] entry_bytes(entries@[i]))
                    == Ok::<Rgb8, PaletteParseError>(colors@[i]),
            Err(e) => exists|k: int|
                0 <= k < entries@.len() && parse_hex_spec(#[trigger] entry_bytes(entries@[k]))
                    == Err::<Rgb8, PaletteParseError>(e) && forall|i: int|
                    0 <= i < k ==> parse_hex_spec(#[trigger] entry_bytes(entries@[i])).is_ok(),
        },
{
    let mut colors: Vec<Rgb8> = Vec::new();
    let mut i: usize = 0;
    while i < entries.len()
        invariant
            i <= entries@.len(),
            colors@.len() == i,
            forall|j: int|
                0 <= j < i ==> parse_hex_spec(#[trigger] entry_bytes(entries@[j]))
                    == Ok::<Rgb8, PaletteParseError>(colors@[j]),
        decreases entries@.len() - i,
    {
        let entry = entries[i].as_str();
        assert(entry.spec_bytes() == entry_bytes(entries@[i as int]));
        let parsed = parse_hex(entry);
        match parsed {
            Ok(c) => {
                colors.push(c);
                assert(parse_hex_spec(entry_bytes(entries@[i as int])) == Ok::<Rgb8, PaletteParseError>(colors@[i as int]));
            },
            Err(e) => {
                assert(forall|j: int| 0 <= j < i ==> parse_hex_spec(#[trigger] entry_bytes(entries@[j])).is_ok());
                assert(parse_hex_spec(entry_bytes(entries@[i as int])) == Err::<Rgb8, PaletteParseError>(e));
                return Err(e);
            },
        }
        i = i + 1;
    }
    Ok(colors)
}

/// The 48 entries of the default palette, as six hexadecimal digits each.
pub open spec fn default_palette_spec() -> Seq<Seq<char>> {
    seq![
        "1b112c"@,
        "413047"@,
        "543e54"@,
        "75596f"@,
        "91718b"@,
        "b391aa"@,
        "ccb3c6"@,
        "e3cfe3"@,
        "fff7ff"@,
        "fffbb5"@,
        "faf38e"@,
        "f7d076"@,
        "fa9c69"@,
        "eb7363"@,
        "e84545"@,
        "c22e53"@,
        "943054"@,
        "612147"@,
        "3d173c"@,
        "3f233c"@,
        "66334b"@,
        "8c4b63"@,
        "c16a7d"@,
        "e5959f"@,
        "ffccd0"@,
        "dd8d9f"@,
        "c8658d"@,
        "b63f82"@,
        "9e2083"@,
        "731f7a"@,
        "47195d"@,
        "2a143d"@,
        "183042"@,
        "1e5451"@,
        "2a6957"@,
        "3b804d"@,
        "5aa653"@,
        "86cf74"@,
        "caf095"@,
        "e0f0bd"@,
        "3f275e"@,
        "3f317a"@,
        "3c548f"@,
        "456aa1"@,
        "4a84b0"@,
        "56aec4"@,
        "92d7d9"@,
        "c3ebe3"@,
    ]
}

/// The default palette's entries, from darkest purple through warm tones,
/// greens and blues.
pub fn default_palette_hex() -> (r: Vec<String>)
    ensures
        r@.len() == default_palette_spec().len(),
        forall|i: int| 0 <= i < r@.len() ==> (#[trigger] r@[i])@ == default_palette_spec()[i],
{
    let mut r: Vec<String> = Vec::new();
    r.push("1b112c".to_owned());
    r.push("413047".to_owned());
    r.push("543e54".to_owned());
    r.push("75596f".to_owned());
    r.push("91718b".to_owned());
    r.push("b391aa".to_owned());
    r.push("ccb3c6".to_owned());
    r.push("e3cfe3".to_owned());
    r.push("fff7ff".to_owned());
    r.push("fffbb5".to_owned());
    r.push("faf38e".to_owned());
    r.push("f7d076".to_owned());
    r.push("fa9c69".to_owned());
    r.push("eb7363".to_owned());
    r.push("e84545".to_owned());
    r.push("c22e53".to_owned());
    r.push("943054".to_owned());
    r.push("612147".to_owned());
    r.push("3d173c".to_owned());
    r.push("3f233c".to_owned());
    r.push("66334b".to_owned());
    r.push("8c4b63".to_owned());
    r.push("c16a7d".to_owned());
    r.push("e5959f".to_owned());
    r.push("ffccd0".to_owned());
    r.push("dd8d9f".to_owned());
    r.push("c8658d".to_owned());
    r.push("b63f82".to_owned());
    r.push("9e2083".to_owned());
    r.push("731f7a".to_owned());
    r.push("47195d".to_owned());
    r.push("2a143d".to_owned());
    r.push("183042".to_owned());
    r.push("1e5451".to_owned());
    r.push("2a6957".to_owned());
    r.push("3b804d".to_owned());
    r.push("5aa653".to_owned());
    r.push("86cf74".to_owned());
    r.push("caf095".to_owned());
    r.push("e0f0bd".to_owned());
    r.push("3f275e".to_owned());
    r.push("3f317a".to_owned());
    r.push("3c548f".to_owned());
    r.push("456aa1".to_owned());
    r.push("4a84b0".to_owned());
    r.push("56aec4".to_owned());
    r.push("92d7d9".to_owned());
    r.push("c3ebe3".to_owned());
    assert(forall|i: int| 0 <= i < r@.len() ==> (#[trigger] r@[i])@ == default_palette_spec()[i]);
    r
}

} // verus!
