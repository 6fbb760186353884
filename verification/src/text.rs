//! Colours as text: hexadecimal and decimal notation, and the swatch that a
//! terminal shows.

use crate::color::{lemma_relative_luminance_fraction, relative_luminance, Color};
use vstd::prelude::*;

verus! {

/// `String::push` appends the character to the end of the string.
pub assume_specification[ String::push ](text: &mut String, ch: char)
    ensures
        final(text)@ == old(text)@.push(ch),
;

/// The upper-case hexadecimal digit of a number below sixteen.
pub open spec fn hex_digit(n: int) -> char {
    if n < 10 {
        (48 + n) as char
    } else {
        (55 + n) as char
    }
}

/// The number that an upper-case hexadecimal digit stands for.
pub open spec fn hex_value(digit: char) -> int {
    if digit as int <= 57 {
        digit as int - 48
    } else {
        digit as int - 55
    }
}

/// Whether the character is one of `0` to `9` or `A` to `F`.
pub open spec fn is_hex_digit(digit: char) -> bool {
    48 <= digit as int <= 57 || 65 <= digit as int <= 70
}

/// A byte as two hexadecimal digits.
pub open spec fn hex_pair(byte: u8) -> Seq<char> {
    seq![hex_digit(byte as int / 16), hex_digit(byte as int % 16)]
}

/// A colour in hexadecimal notation: two digits for each of red, green and
/// blue.
pub open spec fn hex_text(c: Color) -> Seq<char> {
    hex_pair(c.0) + hex_pair(c.1) + hex_pair(c.2)
}

/// The colour that six hexadecimal digits stand for.
pub open spec fn hex_color(text: Seq<char>) -> Color {
    Color(
        (16 * hex_value(text[0]) + hex_value(text[1])) as u8,
        (16 * hex_value(text[2]) + hex_value(text[3])) as u8,
        (16 * hex_value(text[4]) + hex_value(text[5])) as u8,
    )
}

/// The decimal digit of a number below ten.
pub open spec fn decimal_digit(n: int) -> char {
    (48 + n) as char
}

/// A natural number in decimal notation, without leading zeros.
pub open spec fn decimal(n: nat) -> Seq<char>
    decreases n,
{
    if n < 10 {
        seq![decimal_digit(n as int)]
    } else {
        decimal(n / 10).push(decimal_digit(n as int % 10))
    }
}

/// The hexadecimal notation of a colour has six digits, each of them one of
/// `0` to `9` or `A` to `F`, and stands for that colour.
pub proof fn lemma_hex_round_trip(c: Color)
    ensures
        hex_text(c).len() == 6,
        forall|i: int| 0 <= i < 6 ==> is_hex_digit(#[trigger] hex_text(c)[i]),
        hex_color(hex_text(c)) == c,
{
    lemma_hex_pair(c.0);
    lemma_hex_pair(c.1);
    lemma_hex_pair(c.2);
}

/// The two digits of a byte are hexadecimal digits and stand for it.
proof fn lemma_hex_pair(byte: u8)
    ensures
        hex_pair(byte).len() == 2,
        is_hex_digit(hex_pair(byte)[0]),
        is_hex_digit(hex_pair(byte)[1]),
        16 * hex_value(hex_pair(byte)[0]) + hex_value(hex_pair(byte)[1]) == byte,
{
}

/// The upper-case hexadecimal digit of a number below sixteen.
fn hex_digit_of(n: u8) -> (digit: char)
    requires
        n < 16,
    ensures
        digit == hex_digit(n as int),
{
    if n < 10 {
        (48 + n) as char
    } else {
        (55 + n) as char
    }
}

/// Appends the two hexadecimal digits of the byte to the text.
fn push_hex_pair(text: &mut String, byte: u8)
    ensures
        final(text)@ == old(text)@ + hex_pair(byte),
{
    let ghost before = text@;
    text.push(hex_digit_of(byte / 16));
    text.push(hex_digit_of(byte % 16));
    assert(text@ =~= before + hex_pair(byte));
}

/// Appends the decimal notation of the byte to the text.
fn push_decimal(text: &mut String, byte: u8)
    ensures
        final(text)@ == old(text)@ + decimal(byte as nat),
{
    let ghost before = text@;
    reveal_with_fuel(decimal, 3);
    if byte >= 100 {
        text.push((48 + byte / 100) as char);
    }
    if byte >= 10 {
        text.push((48 + (byte / 10) % 10) as char);
    }
    text.push((48 + byte % 10) as char);
    assert(text@ =~= before + decimal(byte as nat));
}

/// The two inks in which a swatch is labelled.
#[derive(Clone, Copy, Debug, PartialEq, Eq, Structural)]
pub enum Ink {
    White,
    Black,
}

/// The ink that shows on the colour: white where its relative luminance is
/// below one half, black elsewhere.
pub open spec fn ink_on(c: Color) -> Ink {
    if relative_luminance(c) < 1real / 2real {
        Ink::White
    } else {
        Ink::Black
    }
}

/// The label of a colour: `#`, its hexadecimal notation, a tab, and its three
/// channels in decimal notation with a comma and a space between them.
pub open spec fn label_text(c: Color) -> Seq<char> {
    seq!['#'] + hex_text(c) + seq!['\t'] + decimal(c.0 as nat) + seq![',', ' '] + decimal(
        c.1 as nat,
    ) + seq![',', ' '] + decimal(c.2 as nat)
}

/// The text between the escape sequences that start and end it: the sequence
/// that sets the background to the colour `ground` and the foreground to the
/// ink, the text itself, and the sequence that resets both.
pub open spec fn painted(ink: Ink, ground: Color, text: Seq<char>) -> Seq<char> {
    seq!['\x1b', '[', '4', '8', ';', '2', ';'] + decimal(ground.0 as nat) + seq![';'] + decimal(
        ground.1 as nat,
    ) + seq![';'] + decimal(ground.2 as nat) + seq![';', '3'] + seq![
        match ink {
            Ink::White => '7',
            Ink::Black => '0',
        },
    ] + seq!['m'] + text + seq!['\x1b', '[', '0', 'm']
}

/// The swatch of a colour: its label in the ink that shows on it, on the
/// colour itself.
pub open spec fn swatch_text(c: Color) -> Seq<char> {
    painted(ink_on(c), c, label_text(c))
}

/// Paints the text with `ansi_term`: `Colour::on` makes the style of the ink
/// on the background `Colour::RGB` of the ground, `Style::paint` joins it to
/// the text, and the `Display` of the result writes the style's escape
/// sequence, the text and the reset sequence.
#[verifier::external_body]
fn paint(ink: Ink, ground: Color, text: &str) -> (out: String)
    ensures
        out@ == painted(ink, ground, text@),
{
    let fore = match ink {
        Ink::White => ansi_term::Colour::White,
        Ink::Black => ansi_term::Colour::Black,
    };
    fore.on(ansi_term::Colour::RGB(ground.0, ground.1, ground.2)).paint(text).to_string()
}

impl Color {
    /// The ink that shows on the colour.
    pub fn ink(self) -> (ink: Ink)
        ensures
            ink == ink_on(self),
    {
        proof {
            lemma_relative_luminance_fraction(self);
        }
        let weighted: u32 = 2126 * (self.0 as u32) + 7152 * (self.1 as u32) + 722 * (self.2 as u32);
        if weighted < 1275000 {
            Ink::White
        } else {
            Ink::Black
        }
    }

    /// The label of the colour, as in `#FF8000\t255, 128, 0`.
    pub fn label(self) -> (text: String)
        ensures
            text@ == label_text(self),
    {
        let mut text = String::new();
        text.push('#');
        push_hex_pair(&mut text, self.0);
        push_hex_pair(&mut text, self.1);
        push_hex_pair(&mut text, self.2);
        text.push('\t');
        push_decimal(&mut text, self.0);
        text.push(',');
        text.push(' ');
        push_decimal(&mut text, self.1);
        text.push(',');
        text.push(' ');
        push_decimal(&mut text, self.2);
        assert(text@ =~= label_text(self));
        text
    }

    /// The swatch of the colour for a terminal.
    pub fn swatch(self) -> (text: String)
        ensures
            text@ == swatch_text(self),
    {
        let label = self.label();
        paint(self.ink(), self, label.as_str())
    }

    /// The colour in hexadecimal notation: six upper-case digits.
    pub fn hex(self) -> (text: String)
        ensures
            text@ == hex_text(self),
            text@.len() == 6,
            hex_color(text@) == self,
    {
        proof {
            lemma_hex_round_trip(self);
        }
        let mut text = String::new();
        push_hex_pair(&mut text, self.0);
        push_hex_pair(&mut text, self.1);
        push_hex_pair(&mut text, self.2);
        assert(text@ =~= hex_text(self));
        text
    }
}

/// How many palette entries are shown where `quantity` are asked for and
/// `available` were found: no more than there are.
pub open spec fn shown(quantity: u16, available: nat) -> nat {
    if quantity as nat <= available {
        quantity as nat
    } else {
        available
    }
}

/// How many palette entries are shown.
pub fn cap(quantity: u16, available: usize) -> (n: usize)
    ensures
        n == shown(quantity, available as nat),
{
    if (quantity as usize) <= available {
        quantity as usize
    } else {
        available
    }
}

/// The swatches of a palette for a terminal.
pub struct Listing {
    /// One swatch for each entry that is shown, in the order of the palette.
    pub lines: Vec<String>,
    /// Whether fewer entries are shown than were asked for.
    pub short: bool,
}

/// The swatches of the first `quantity` entries of the palette, or of all of
/// them where it has fewer.
pub fn list(palette: &Vec<Color>, quantity: u16) -> (listing: Listing)
    ensures
        listing.lines.len() == shown(quantity, palette.len() as nat),
        forall|i: int|
            0 <= i < listing.lines.len() ==> (#[trigger] listing.lines[i])@ == swatch_text(palette[i]),
        listing.short == (palette.len() < quantity),
{
    let n = cap(quantity, palette.len());
    let mut lines: Vec<String> = Vec::new();
    let mut i: usize = 0;
    while i < n
        invariant
            0 <= i <= n <= palette.len(),
            lines.len() == i,
            forall|k: int| 0 <= k < i ==> (#[trigger] lines[k])@ == swatch_text(palette[k]),
        decreases n - i,
    {
        lines.push(palette[i].swatch());
        i = i + 1;
    }
    Listing { lines, short: palette.len() < quantity as usize }
}

/// A palette entry as a record: its channels and its hexadecimal notation.
pub struct Record {
    pub r: u8,
    pub g: u8,
    pub b: u8,
    pub hex: String,
}

/// Whether the record is that of the colour.
pub open spec fn records_color(record: Record, c: Color) -> bool {
    record.r == c.0 && record.g == c.1 && record.b == c.2 && record.hex@ == hex_text(c)
}

/// The records of the first `quantity` entries of the palette, or of all of
/// them where it has fewer.
pub fn records(palette: &Vec<Color>, quantity: u16) -> (out: Vec<Record>)
    ensures
        out.len() == shown(quantity, palette.len() as nat),
        forall|i: int| 0 <= i < out.len() ==> records_color(#[trigger] out[i], palette[i]),
{
    let n = cap(quantity, palette.len());
    let mut out: Vec<Record> = Vec::new();
    let mut i: usize = 0;
    while i < n
        invariant
            0 <= i <= n <= palette.len(),
            out.len() == i,
            forall|k: int| 0 <= k < i ==> records_color(#[trigger] out[k], palette[k]),
        decreases n - i,
    {
        let c = palette[i];
        out.push(Record { r: c.0, g: c.1, b: c.2, hex: c.hex() });
        i = i + 1;
    }
    out
}

} // verus!
