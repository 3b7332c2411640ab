//! The palette: hex colour strings and their decoding into RGB triplets.

use crate::binary32::Binary32;
use crate::interval::{scale, Interval};
use crate::PALETTE_SIZE;
use vstd::prelude::*;
use vstd::string::*;
use vstd::utf8::*;

verus! {

/// An RGB triplet of 8-bit channels.
#[derive(Clone, Copy, Debug, PartialEq, Eq, Structural)]
pub struct Color {
    pub red: u8,
    pub green: u8,
    pub blue: u8,
}

/// True for the ASCII bytes `0`-`9`, `a`-`f` and `A`-`F`.
pub open spec fn is_hex_digit(byte: u8) -> bool {
    ||| 0x30 <= byte <= 0x39
    ||| 0x41 <= byte <= 0x46
    ||| 0x61 <= byte <= 0x66
}

/// The number, below sixteen, that a hex digit stands for.
pub open spec fn hex_digit_value(byte: u8) -> nat
    recommends
        is_hex_digit(byte),
{
    if byte <= 0x39 {
        (byte - 0x30) as nat
    } else if byte <= 0x46 {
        (byte - 0x41 + 10) as nat
    } else {
        (byte - 0x61 + 10) as nat
    }
}

/// True when every byte of `digits` is a hex digit.
pub open spec fn all_hex_digits(digits: Seq<u8>) -> bool {
    forall|i: int| 0 <= i < digits.len() ==> is_hex_digit(#[trigger] digits[i])
}

/// The number that a sequence of hex digits denotes, most significant digit first.
pub open spec fn hex_number(digits: Seq<u8>) -> nat
    decreases digits.len(),
{
    if digits.len() == 0 {
        0
    } else {
        16 * hex_number(digits.drop_last()) + hex_digit_value(digits.last())
    }
}

/// What a base-16 parse into `u8` makes of `text`: one optional `+`, then at
/// least one hex digit and nothing else, denoting a number up to 255.
pub open spec fn hex_u8(text: Seq<u8>) -> Option<u8> {
    let digits = if text.len() > 0 && text[0] == 0x2b {
        text.skip(1)
    } else {
        text
    };
    if digits.len() > 0 && all_hex_digits(digits) && hex_number(digits) <= 255 {
        Some(hex_number(digits) as u8)
    } else {
        None
    }
}

/// The value of the two hex digits that start at `start` in `bytes`.
pub open spec fn channel_at(bytes: Seq<u8>, start: int) -> nat
    recommends
        0 <= start,
        start + 2 <= bytes.len(),
{
    16 * hex_digit_value(bytes[start]) + hex_digit_value(bytes[start + 1])
}

/// Calls `u8::from_str_radix` with radix 16 and drops the error's detail.
/// Trusted: the parse succeeds exactly on an optional `+` followed by one or
/// more hex digits whose value fits in eight bits, and then yields that value.
#[verifier::external_body]
fn parse_hex_u8(text: &str) -> (parsed: Option<u8>)
    ensures
        parsed == hex_u8(text.spec_bytes()),
{
    u8::from_str_radix(text, 16).ok()
}

/// In valid UTF-8, a position that holds two ASCII bytes is a character
/// boundary, and so is the position two bytes later.
proof fn lemma_ascii_pair_boundaries(bytes: Seq<u8>, start: int)
    requires
        valid_utf8(bytes),
        0 <= start,
        start + 2 <= bytes.len(),
        bytes[start] < 0x80,
        bytes[start + 1] < 0x80,
    ensures
        is_char_boundary(bytes, start),
        valid_utf8(bytes.subrange(start, bytes.len() as int)),
        is_char_boundary(bytes.subrange(start, bytes.len() as int), 2),
{
    is_char_boundary_iff_not_is_continuation_byte(bytes, start);
    valid_utf8_split(bytes, start);
    let tail = bytes.subrange(start, bytes.len() as int);
    assert(tail[0] == bytes[start]);
    assert(tail[1] == bytes[start + 1]);
    reveal_with_fuel(valid_utf8, 3);
    reveal_with_fuel(is_char_boundary, 3);
    let rest = pop_first_scalar(tail);
    assert(rest == tail.subrange(1, tail.len() as int));
    assert(rest[0] == tail[1]);
    assert(pop_first_scalar(rest) == rest.subrange(1, rest.len() as int));
}

/// The lowercase hex digit for a number below sixteen.
pub open spec fn lower_hex_digit(value: nat) -> u8
    recommends
        value < 16,
{
    if value < 10 {
        (0x30 + value) as u8
    } else {
        (0x61 + value - 10) as u8
    }
}

/// The lowercase hex digits of `number`, most significant first, with no
/// leading zero; zero itself is the single digit `0`.
pub open spec fn lower_hex(number: nat) -> Seq<u8>
    decreases number,
{
    if number < 16 {
        seq![lower_hex_digit(number)]
    } else {
        lower_hex(number / 16).push(lower_hex_digit(number % 16))
    }
}

/// The unsigned number with the same 32 bits as `value`.
pub open spec fn twos_complement(value: i32) -> nat {
    if value < 0 {
        (value + 0x1_0000_0000) as nat
    } else {
        value as nat
    }
}

/// `text` followed by as many copies of `fill` as it takes to reach `width`
/// bytes; a text that is long enough already is left as it is.
pub open spec fn pad_right(text: Seq<u8>, width: nat, fill: u8) -> Seq<u8> {
    if text.len() >= width {
        text
    } else {
        text + Seq::new((width - text.len()) as nat, |i: int| fill)
    }
}

/// The hex text of a pseudo-colour: the lowercase hex digits of its 32 bits,
/// padded on the right with `0` to six digits.
pub open spec fn padded_hex(value: i32) -> Seq<u8> {
    pad_right(lower_hex(twos_complement(value)), 6, 0x30)
}

/// Calls `format!` with `{:0<6x}`. Trusted: the text is the lowercase hex of
/// the value's two's complement bits, left-aligned in a field of six filled
/// with `0`.
#[verifier::external_body]
fn format_padded_hex(value: i32) -> (text: String)
    ensures
        encode_utf8(text@) == padded_hex(value),
{
    format!("{:0<6x}", value)
}

/// Every byte of `lower_hex` is a hex digit, and there is at least one.
pub proof fn lemma_lower_hex_digits(number: nat)
    ensures
        lower_hex(number).len() >= 1,
        all_hex_digits(lower_hex(number)),
    decreases number,
{
    if number >= 16 {
        lemma_lower_hex_digits(number / 16);
    }
}

/// A padded hex text holds at least six bytes, all of them hex digits.
pub proof fn lemma_padded_hex_digits(value: i32)
    ensures
        padded_hex(value).len() >= 6,
        all_hex_digits(padded_hex(value)),
{
    lemma_lower_hex_digits(twos_complement(value));
}

/// The colour that a hex text decodes to: its first six digits, two per channel.
pub open spec fn color_of_hex(bytes: Seq<u8>) -> Color
    recommends
        bytes.len() >= 6,
{
    Color {
        red: channel_at(bytes, 0) as u8,
        green: channel_at(bytes, 2) as u8,
        blue: channel_at(bytes, 4) as u8,
    }
}

/// A colour written as hex digits, two per channel: red, green, blue.
pub struct HexColor(pub String);

impl HexColor {
    /// The UTF-8 bytes of the string.
    pub open spec fn bytes(&self) -> Seq<u8> {
        encode_utf8(self.0@)
    }

    /// True when a channel can be read at `start`: two hex digits stand there.
    pub open spec fn has_channel(&self, start: int) -> bool {
        &&& 0 <= start
        &&& start + 2 <= self.bytes().len()
        &&& is_hex_digit(self.bytes()[start])
        &&& is_hex_digit(self.bytes()[start + 1])
    }

    /// Reads the two hex digits at byte offset `start_index` as one channel.
    pub fn extract_channel(&self, start_index: usize) -> (channel: u8)
        requires
            self.has_channel(start_index as int),
        ensures
            channel == channel_at(self.bytes(), start_index as int),
    {
        let text = self.0.as_str();
        proof {
            encode_utf8_valid_utf8(text@);
            lemma_ascii_pair_boundaries(text.spec_bytes(), start_index as int);
        }
        let (_, tail) = text.split_at(start_index);
        let (pair, _) = tail.split_at(2);
        proof {
            let digits = pair.spec_bytes();
            assert(digits.len() == 2);
            assert(digits[0] == self.bytes()[start_index as int]);
            assert(digits[1] == self.bytes()[start_index + 1]);
            assert(digits.drop_last().drop_last().len() == 0);
            assert(digits.drop_last().last() == digits[0]);
            reveal_with_fuel(hex_number, 3);
            assert(hex_number(digits) == channel_at(self.bytes(), start_index as int));
        }
        match parse_hex_u8(pair) {
            Some(channel) => channel,
            None => vstd::pervasive::unreached(),
        }
    }

    /// Decodes the first six hex digits as red, green and blue.
    pub fn to_rgb(&self) -> (color: Color)
        requires
            self.has_channel(0),
            self.has_channel(2),
            self.has_channel(4),
        ensures
            color == color_of_hex(self.bytes()),
    {
        let red = self.extract_channel(0);
        let green = self.extract_channel(2);
        let blue = self.extract_channel(4);
        Color { red, green, blue }
    }

    /// Writes a pseudo-colour as hex text: see `padded_hex`.
    pub fn from_value(value: i32) -> (hex: HexColor)
        ensures
            hex.bytes() == padded_hex(value),
            hex.has_channel(0),
            hex.has_channel(2),
            hex.has_channel(4),
    {
        proof {
            lemma_padded_hex_digits(value);
        }
        HexColor(format_padded_hex(value))
    }
}

/// The colour of a pseudo-colour value: its padded hex text, decoded.
pub open spec fn color_of_value(value: i32) -> Color {
    color_of_hex(padded_hex(value))
}

/// The bits of 16777215.0, the pseudo-colour of white.
pub const WHITE_BITS: u32 = 0x4b7f_ffff;

/// The pseudo-colour of a position in the palette band: the position scaled
/// from `[0, PALETTE_SIZE]` onto `[0, 0xFFFFFF]`, its fraction dropped.
pub open spec fn pseudo_color(choice: u16) -> i32 {
    scale(
        Binary32::from_u16(choice),
        Interval { lower_bound: Binary32 { bits: 0 }, upper_bound: Binary32::from_u16(PALETTE_SIZE) },
        Interval { lower_bound: Binary32 { bits: 0 }, upper_bound: Binary32 { bits: WHITE_BITS } },
    ).to_i32()
}

/// The colour of an iteration count: that of its position in the band.
pub open spec fn spec_iteration_to_pixel(iteration: u16) -> Color {
    color_of_value(pseudo_color(iteration % PALETTE_SIZE))
}

/// Maps an iteration count to a colour. The count is taken modulo the
/// palette size, scaled to a pseudo-colour, written as padded hex text and
/// decoded two digits per channel.
#[verifier::when_used_as_spec(spec_iteration_to_pixel)]
pub fn iteration_to_pixel(iteration: u16) -> (color: Color)
    ensures
        color == spec_iteration_to_pixel(iteration),
{
    let palette_choice = Binary32::from_u16(iteration % PALETTE_SIZE);
    let hex_color = scale(
        palette_choice,
        Interval { lower_bound: Binary32 { bits: 0 }, upper_bound: Binary32::from_u16(PALETTE_SIZE) },
        Interval { lower_bound: Binary32 { bits: 0 }, upper_bound: Binary32 { bits: WHITE_BITS } },
    );
    let hex_color = HexColor::from_value(hex_color.to_i32());
    hex_color.to_rgb()
}

/// Adding forty to a number leaves its remainder by forty as it was.
proof fn lemma_same_position(count: int)
    ensures
        (count + 40) % 40 == count % 40,
{
}

/// The palette is cyclic: a count and the same count one palette length
/// later have the same colour.
pub proof fn lemma_palette_periodic(iteration: u16)
    requires
        iteration + PALETTE_SIZE <= u16::MAX,
    ensures
        iteration_to_pixel((iteration + PALETTE_SIZE) as u16) == iteration_to_pixel(iteration),
{
    let later = (iteration + PALETTE_SIZE) as u16;
    assert(later % PALETTE_SIZE == iteration % PALETTE_SIZE) by {
        lemma_same_position(iteration as int);
    }
}

/// The palette wraps around: the count of one palette length has the colour
/// of the count zero.
pub proof fn lemma_palette_wraps()
    ensures
        iteration_to_pixel(PALETTE_SIZE) == iteration_to_pixel(0),
{
}

} // verus!
