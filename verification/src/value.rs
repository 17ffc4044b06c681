//! The `Value` sum type stored by the configuration store, and the textual
//! form of its `Color` variant (`#rrggbb` / `#rrggbbaa`).

use vstd::prelude::*;

verus! {

/// An RGBA color with four 8-bit channels.
#[derive(Clone, Copy, PartialEq, Eq, Structural, Debug)]
pub struct Color {
    pub r: u8,
    pub g: u8,
    pub b: u8,
    pub a: u8,
}

/// A configuration value.  Equality is structural.  The `Float` variant
/// carries the IEEE-754 bit pattern of a 64-bit value, so that the store
/// itself stays within integer arithmetic.  Note well: the store holds
/// any bit pattern, but the textual format (`config_text`) carries only
/// the integer-valued floats below 2^53 exactly — a fractional value such
/// as one half is refused by `serialize`, and a fractional token such as
/// `0.5` is refused by `parse`, rather than rounded.
#[derive(PartialEq, Debug)]
pub enum Value {
    Integer(i64),
    Float(u64),
    Boolean(bool),
    Text(String),
    Color(Color),
}

/// Mathematical image of a `Value`: the `Text` variant is seen as its
/// character sequence.
pub enum ValueView {
    Integer(i64),
    Float(u64),
    Boolean(bool),
    Text(Seq<char>),
    Color(Color),
}

impl View for Value {
    type V = ValueView;

    open spec fn view(&self) -> ValueView {
        match self {
            Value::Integer(i) => ValueView::Integer(*i),
            Value::Float(b) => ValueView::Float(*b),
            Value::Boolean(b) => ValueView::Boolean(*b),
            Value::Text(s) => ValueView::Text(s@),
            Value::Color(c) => ValueView::Color(*c),
        }
    }
}

impl Clone for Value {
    fn clone(&self) -> (r: Self)
        ensures
            r == *self,
    {
        match self {
            Value::Integer(i) => Value::Integer(*i),
            Value::Float(b) => Value::Float(*b),
            Value::Boolean(b) => Value::Boolean(*b),
            Value::Text(s) => Value::Text(s.clone()),
            Value::Color(c) => Value::Color(*c),
        }
    }
}

/// True of the 22 characters that may stand in a color code after `#`.
pub open spec fn is_hex_digit(c: char) -> bool {
    match c {
        '0' | '1' | '2' | '3' | '4' | '5' | '6' | '7' | '8' | '9' => true,
        'a' | 'b' | 'c' | 'd' | 'e' | 'f' => true,
        'A' | 'B' | 'C' | 'D' | 'E' | 'F' => true,
        _ => false,
    }
}

/// Numeric value of a hex digit.
pub open spec fn hex_digit_val(c: char) -> u8
    recommends
        is_hex_digit(c),
{
    match c {
        '0' => 0u8,
        '1' => 1u8,
        '2' => 2u8,
        '3' => 3u8,
        '4' => 4u8,
        '5' => 5u8,
        '6' => 6u8,
        '7' => 7u8,
        '8' => 8u8,
        '9' => 9u8,
        'a' | 'A' => 10u8,
        'b' | 'B' => 11u8,
        'c' | 'C' => 12u8,
        'd' | 'D' => 13u8,
        'e' | 'E' => 14u8,
        'f' | 'F' => 15u8,
        _ => 0u8,
    }
}

/// The lowercase spelling of a hex digit (other characters unchanged).
pub open spec fn hex_digit_lower(c: char) -> char {
    match c {
        'A' => 'a',
        'B' => 'b',
        'C' => 'c',
        'D' => 'd',
        'E' => 'e',
        'F' => 'f',
        _ => c,
    }
}

/// The lowercase hex digit with value `v` (for `v < 16`).
pub open spec fn hex_digit_char(v: u8) -> char
    recommends
        v < 16,
{
    match v {
        0u8 => '0',
        1u8 => '1',
        2u8 => '2',
        3u8 => '3',
        4u8 => '4',
        5u8 => '5',
        6u8 => '6',
        7u8 => '7',
        8u8 => '8',
        9u8 => '9',
        10u8 => 'a',
        11u8 => 'b',
        12u8 => 'c',
        13u8 => 'd',
        14u8 => 'e',
        15u8 => 'f',
        _ => '0',
    }
}

/// A character sequence of the form `#rrggbb` or `#rrggbbaa`.
pub open spec fn is_color_text(s: Seq<char>) -> bool {
    &&& (s.len() == 7 || s.len() == 9)
    &&& s[0] == '#'
    &&& forall|i: int| 1 <= i < s.len() ==> is_hex_digit(#[trigger] s[i])
}

/// One channel read from the two hex digits at positions `i`, `i + 1`.
pub open spec fn spec_channel(s: Seq<char>, i: int) -> u8
    recommends
        0 <= i,
        i + 1 < s.len(),
{
    (hex_digit_val(s[i]) * 16 + hex_digit_val(s[i + 1])) as u8
}

/// The color denoted by a `#rrggbb[aa]` sequence; a missing alpha pair
/// reads as 255.
pub open spec fn spec_parse_color(s: Seq<char>) -> Color
    recommends
        is_color_text(s),
{
    Color {
        r: spec_channel(s, 1),
        g: spec_channel(s, 3),
        b: spec_channel(s, 5),
        a: if s.len() == 9 {
            spec_channel(s, 7)
        } else {
            255u8
        },
    }
}

/// The canonical spelling of a color: lowercase `#rrggbbaa`, alpha always
/// written.
pub open spec fn spec_ser_color(c: Color) -> Seq<char> {
    seq![
        '#',
        hex_digit_char(c.r / 16),
        hex_digit_char(c.r % 16),
        hex_digit_char(c.g / 16),
        hex_digit_char(c.g % 16),
        hex_digit_char(c.b / 16),
        hex_digit_char(c.b % 16),
        hex_digit_char(c.a / 16),
        hex_digit_char(c.a % 16),
    ]
}

fn hex_val(c: char) -> (r: Option<u8>)
    ensures
        r is Some <==> is_hex_digit(c),
        r matches Some(v) ==> v == hex_digit_val(c) && v < 16,
{
    match c {
        '0' => Some(0u8),
        '1' => Some(1u8),
        '2' => Some(2u8),
        '3' => Some(3u8),
        '4' => Some(4u8),
        '5' => Some(5u8),
        '6' => Some(6u8),
        '7' => Some(7u8),
        '8' => Some(8u8),
        '9' => Some(9u8),
        'a' | 'A' => Some(10u8),
        'b' | 'B' => Some(11u8),
        'c' | 'C' => Some(12u8),
        'd' | 'D' => Some(13u8),
        'e' | 'E' => Some(14u8),
        'f' | 'F' => Some(15u8),
        _ => None,
    }
}

fn hex_char(v: u8) -> (c: char)
    requires
        v < 16,
    ensures
        c == hex_digit_char(v),
{
    match v {
        0u8 => '0',
        1u8 => '1',
        2u8 => '2',
        3u8 => '3',
        4u8 => '4',
        5u8 => '5',
        6u8 => '6',
        7u8 => '7',
        8u8 => '8',
        9u8 => '9',
        10u8 => 'a',
        11u8 => 'b',
        12u8 => 'c',
        13u8 => 'd',
        14u8 => 'e',
        _ => 'f',
    }
}

fn channel(s: &Vec<char>, i: usize) -> (r: Option<u8>)
    requires
        i + 1 < s@.len(),
    ensures
        r is Some <==> is_hex_digit(s@[i as int]) && is_hex_digit(s@[i + 1]),
        r matches Some(v) ==> v == spec_channel(s@, i as int),
{
    let n = s.len();
    assert(i + 1 < n);
    let hi = hex_val(s[i]);
    let lo = hex_val(s[i + 1]);
    match (hi, lo) {
        (Some(h), Some(l)) => Some(h * 16 + l),
        _ => None,
    }
}

/// Reads a `#rrggbb[aa]` character sequence as a color; answers `None` on
/// any other sequence.
pub fn parse_color(s: &Vec<char>) -> (r: Option<Color>)
    ensures
        r is Some <==> is_color_text(s@),
        r matches Some(c) ==> c == spec_parse_color(s@),
{
    if !(s.len() == 7 || s.len() == 9) {
        return None;
    }
    if s[0] != '#' {
        return None;
    }
    let red = channel(s, 1);
    let green = channel(s, 3);
    let blue = channel(s, 5);
    let alpha: Option<u8> = if s.len() == 9 {
        channel(s, 7)
    } else {
        Some(255u8)
    };
    match (red, green, blue, alpha) {
        (Some(r), Some(g), Some(b), Some(a)) => Some(Color { r, g, b, a }),
        _ => None,
    }
}

/// Writes a color in its canonical lowercase `#rrggbbaa` form.
pub fn ser_color(c: Color) -> (out: Vec<char>)
    ensures
        out@ == spec_ser_color(c),
{
    let mut out: Vec<char> = Vec::new();
    out.push('#');
    out.push(hex_char(c.r / 16));
    out.push(hex_char(c.r % 16));
    out.push(hex_char(c.g / 16));
    out.push(hex_char(c.g % 16));
    out.push(hex_char(c.b / 16));
    out.push(hex_char(c.b % 16));
    out.push(hex_char(c.a / 16));
    out.push(hex_char(c.a % 16));
    proof {
        assert(out@ =~= spec_ser_color(c));
    }
    out
}

/// The sequence with every hex digit lowercased in place.
pub open spec fn lower_hex_text(s: Seq<char>) -> Seq<char> {
    Seq::new(s.len(), |i: int| hex_digit_lower(s[i]))
}

proof fn lemma_hex_digit_round(c: char)
    requires
        is_hex_digit(c),
    ensures
        hex_digit_char(hex_digit_val(c)) == hex_digit_lower(c),
{
}

proof fn lemma_channel_digits(s: Seq<char>, i: int)
    requires
        0 <= i,
        i + 1 < s.len(),
        is_hex_digit(s[i]),
        is_hex_digit(s[i + 1]),
    ensures
        hex_digit_char(spec_channel(s, i) / 16) == hex_digit_lower(s[i]),
        hex_digit_char(spec_channel(s, i) % 16) == hex_digit_lower(s[i + 1]),
{
    let h = hex_digit_val(s[i]);
    let l = hex_digit_val(s[i + 1]);
    assert(h < 16 && l < 16);
    assert((h * 16 + l) / 16 == h && (h * 16 + l) % 16 == l) by (nonlinear_arith)
        requires
            h < 16,
            l < 16,
    ;
    lemma_hex_digit_round(s[i]);
    lemma_hex_digit_round(s[i + 1]);
}

/// Color round trip: a full `#rrggbbaa` code, read as a color and written
/// back, yields the lowercase spelling of the input.
pub proof fn lemma_color_round_trip(s: Seq<char>)
    requires
        s.len() == 9,
        is_color_text(s),
    ensures
        spec_ser_color(spec_parse_color(s)) == lower_hex_text(s),
{
    lemma_channel_digits(s, 1);
    lemma_channel_digits(s, 3);
    lemma_channel_digits(s, 5);
    lemma_channel_digits(s, 7);
    assert(spec_ser_color(spec_parse_color(s)) =~= lower_hex_text(s));
}

} // verus!
