//! A colour of four 8-bit channels, packed into one word as `0xRRGGBBAA`.

use vstd::prelude::*;
use vstd::string::{StringExecFns, StringSliceAdditionalSpecFns};

verus! {

/// Describes a color.
#[derive(Copy, Clone, Debug, PartialEq, Eq, Structural)]
pub struct Color {
    pub data: u32,
}

/// The word that packs four channels, red in the highest byte and alpha in
/// the lowest.
pub open spec fn packed(r: u8, g: u8, b: u8, a: u8) -> u32 {
    (r * 0x100_0000 + g * 0x1_0000 + b * 0x100 + a) as u32
}

proof fn lemma_pack_bits(r: u8, g: u8, b: u8, a: u8)
    ensures
        ((r as u32) << 24) | ((g as u32) << 16) | ((b as u32) << 8) | (a as u32) == packed(
            r,
            g,
            b,
            a,
        ),
        packed(r, g, b, a) / 0x100_0000 == r,
        packed(r, g, b, a) / 0x1_0000 % 0x100 == g,
        packed(r, g, b, a) / 0x100 % 0x100 == b,
        packed(r, g, b, a) % 0x100 == a,
{
    let word: u32 = ((r as u32) << 24) | ((g as u32) << 16) | ((b as u32) << 8) | (a as u32);
    assert(word == (r * 0x100_0000 + g * 0x1_0000 + b * 0x100 + a) as u32) by (bit_vector)
        requires
            word == ((r as u32) << 24) | ((g as u32) << 16) | ((b as u32) << 8) | (a as u32),
    ;
    assert(word / 0x100_0000 == r && word / 0x1_0000 % 0x100 == g && word / 0x100 % 0x100 == b
        && word % 0x100 == a) by (bit_vector)
        requires
            word == ((r as u32) << 24) | ((g as u32) << 16) | ((b as u32) << 8) | (a as u32),
    ;
}

impl Color {
    /// The red channel: the highest byte of the word.
    pub open spec fn red_channel(self) -> u8 {
        (self.data / 0x100_0000) as u8
    }

    /// The green channel.
    pub open spec fn green_channel(self) -> u8 {
        (self.data / 0x1_0000 % 0x100) as u8
    }

    /// The blue channel.
    pub open spec fn blue_channel(self) -> u8 {
        (self.data / 0x100 % 0x100) as u8
    }

    /// The alpha channel: the lowest byte of the word.
    pub open spec fn alpha_channel(self) -> u8 {
        (self.data % 0x100) as u8
    }

    /// Create a new color from RGBA
    pub fn rgba(r: u8, g: u8, b: u8, a: u8) -> (c: Color)
        ensures
            c.data == packed(r, g, b, a),
            c.red_channel() == r,
            c.green_channel() == g,
            c.blue_channel() == b,
            c.alpha_channel() == a,
    {
        proof {
            lemma_pack_bits(r, g, b, a);
        }
        Color { data: ((r as u32) << 24) | ((g as u32) << 16) | ((b as u32) << 8) | (a as u32) }
    }

    /// Create a new, opaque color from RGB
    pub fn rgb(r: u8, g: u8, b: u8) -> (c: Color)
        ensures
            c.data == packed(r, g, b, 255),
            c.red_channel() == r,
            c.green_channel() == g,
            c.blue_channel() == b,
            c.alpha_channel() == 255,
    {
        Color::rgba(r, g, b, 255)
    }

    /// Get the red value
    pub fn r(self) -> (v: u8)
        ensures
            v == self.red_channel(),
    {
        let d: u32 = self.data;
        assert((d & 0xFF00_0000) >> 24 == d / 0x100_0000) by (bit_vector);
        ((self.data & 0xFF00_0000) >> 24) as u8
    }

    /// Get the green value
    pub fn g(self) -> (v: u8)
        ensures
            v == self.green_channel(),
    {
        let d: u32 = self.data;
        assert((d & 0x00FF_0000) >> 16 == d / 0x1_0000 % 0x100) by (bit_vector);
        ((self.data & 0x00FF_0000) >> 16) as u8
    }

    /// Get the blue value
    pub fn b(self) -> (v: u8)
        ensures
            v == self.blue_channel(),
    {
        let d: u32 = self.data;
        assert((d & 0x0000_FF00) >> 8 == d / 0x100 % 0x100) by (bit_vector);
        ((self.data & 0x0000_FF00) >> 8) as u8
    }

    /// Get the alpha value
    pub fn a(self) -> (v: u8)
        ensures
            v == self.alpha_channel(),
    {
        let d: u32 = self.data;
        assert(d & 0x0000_00FF == d % 0x100) by (bit_vector);
        (self.data & 0x0000_00FF) as u8
    }
}

/// A colour is its four channels: packed again they give the same word, so
/// that two colours with the same channels are the same colour.
pub proof fn lemma_channels_make_the_word(color: Color)
    ensures
        packed(
            color.red_channel(),
            color.green_channel(),
            color.blue_channel(),
            color.alpha_channel(),
        ) == color.data,
{
    let d: int = color.data as int;
    let low = d / 0x100;
    let mid = low / 0x100;
    let high = mid / 0x100;
    assert(d == 0x100 * low + d % 0x100);
    assert(low == 0x100 * mid + low % 0x100);
    assert(mid == 0x100 * high + mid % 0x100);
    assert(mid == d / 0x1_0000);
    assert(high == d / 0x100_0000);
}

/// The four channels come back out of the word that packs them.
pub proof fn lemma_word_holds_the_channels(r: u8, g: u8, b: u8, a: u8)
    ensures
        (Color { data: packed(r, g, b, a) }).red_channel() == r,
        (Color { data: packed(r, g, b, a) }).green_channel() == g,
        (Color { data: packed(r, g, b, a) }).blue_channel() == b,
        (Color { data: packed(r, g, b, a) }).alpha_channel() == a,
{
    lemma_pack_bits(r, g, b, a);
}

impl Default for Color {
    fn default() -> (c: Color)
        ensures
            c.data == 0,
    {
        Color { data: 0 }
    }
}

impl Color {
    pub fn transparent() -> (c: Color)
        ensures
            c.data == 0x00000000,
    {
        Color { data: 0x00000000 }
    }

    pub fn black() -> (c: Color)
        ensures
            c.data == 0x000000FF,
    {
        Color { data: 0x000000FF }
    }

    pub fn white() -> (c: Color)
        ensures
            c.data == 0xFFFFFFFF,
    {
        Color { data: 0xFFFFFFFF }
    }

    pub fn red() -> (c: Color)
        ensures
            c.data == 0xFF0000FF,
    {
        Color { data: 0xFF0000FF }
    }

    pub fn green() -> (c: Color)
        ensures
            c.data == 0x008000FF,
    {
        Color { data: 0x008000FF }
    }

    pub fn blue() -> (c: Color)
        ensures
            c.data == 0x0000FFFF,
    {
        Color { data: 0x0000FFFF }
    }

    pub fn yellow() -> (c: Color)
        ensures
            c.data == 0xFFFF00FF,
    {
        Color { data: 0xFFFF00FF }
    }

    pub fn cyan() -> (c: Color)
        ensures
            c.data == 0x00FFFFFF,
    {
        Color { data: 0x00FFFFFF }
    }

    pub fn magenta() -> (c: Color)
        ensures
            c.data == 0xFF00FFFF,
    {
        Color { data: 0xFF00FFFF }
    }
}

/// The value of a hexadecimal digit, upper or lower case.
pub open spec fn hex_digit(byte: u8) -> Option<u8> {
    if 0x30 <= byte <= 0x39 {
        Some((byte - 0x30) as u8)
    } else if 0x61 <= byte <= 0x66 {
        Some((byte - 0x61 + 10) as u8)
    } else if 0x41 <= byte <= 0x46 {
        Some((byte - 0x41 + 10) as u8)
    } else {
        None
    }
}

/// The number that hexadecimal digits write, the first digit weighing most;
/// nothing where one of them is no digit.
pub open spec fn hex_number(digits: Seq<u8>) -> Option<nat>
    decreases digits.len(),
{
    if digits.len() == 0 {
        Some(0)
    } else {
        match (hex_number(digits.drop_last()), hex_digit(digits.last())) {
            (Some(front), Some(digit)) => Some((16 * front + digit) as nat),
            _ => None,
        }
    }
}

/// The text without the `#` signs that it starts with.
pub open spec fn without_hashes(text: Seq<u8>) -> Seq<u8>
    decreases text.len(),
{
    if text.len() > 0 && text[0] == 0x23 {
        without_hashes(text.skip(1))
    } else {
        text
    }
}

/// The word of the colour that a text writes, after any `#` signs.
///
/// Three or four characters are read as one digit for each of red, green and
/// blue, each digit standing for two equal ones; a text of three is opaque,
/// a text of four takes its alpha from the first digit once more. There is no
/// colour where one of the three is no digit.
/// Six or eight characters are a hexadecimal number, which a `+` sign may
/// precede: of eight the word itself, of six the word without its alpha,
/// which is opaque. A text that is no such number counts as zero.
/// Any other text is the transparent colour.
pub open spec fn color_word(text: Seq<u8>) -> Option<u32> {
    let text = without_hashes(text);
    if text.len() == 3 || text.len() == 4 {
        match (hex_digit(text[0]), hex_digit(text[1]), hex_digit(text[2])) {
            (Some(r), Some(g), Some(b)) => Some(
                packed(
                    (17 * r) as u8,
                    (17 * g) as u8,
                    (17 * b) as u8,
                    if text.len() == 3 {
                        255
                    } else {
                        (17 * r) as u8
                    },
                ),
            ),
            _ => None,
        }
    } else if text.len() == 6 || text.len() == 8 {
        let digits = if text[0] == 0x2b {
            text.skip(1)
        } else {
            text
        };
        let number = match hex_number(digits) {
            Some(number) => number,
            None => 0,
        };
        if text.len() == 6 {
            Some((256 * number + 255) as u32)
        } else {
            Some(number as u32)
        }
    } else {
        Some(0)
    }
}

/// Sixteen to the power of `count`: the first number that `count` digits do
/// not reach.
pub open spec fn sixteen_to(count: nat) -> nat
    decreases count,
{
    if count == 0 {
        1
    } else {
        16 * sixteen_to((count - 1) as nat)
    }
}

proof fn lemma_no_digit_no_number(digits: Seq<u8>, at: int)
    requires
        0 <= at < digits.len(),
        hex_digit(digits[at]) is None,
    ensures
        hex_number(digits) is None,
    decreases digits.len(),
{
    if at < digits.len() - 1 {
        lemma_no_digit_no_number(digits.drop_last(), at);
    }
}

proof fn lemma_hashes_skipped(text: Seq<u8>, start: int)
    requires
        0 <= start <= text.len(),
        forall|k: int| 0 <= k < start ==> text[k] == 0x23,
        start < text.len() ==> text[start] != 0x23,
    ensures
        without_hashes(text) == text.skip(start),
    decreases start,
{
    if start == 0 {
        assert(text.skip(0) =~= text);
    } else {
        let rest = text.skip(1);
        assert forall|k: int| 0 <= k < start - 1 implies rest[k] == 0x23 by {
            assert(rest[k] == text[k + 1]);
        }
        lemma_hashes_skipped(rest, start - 1);
        assert(rest.skip(start - 1) =~= text.skip(start));
    }
}

/// The value of a hexadecimal digit.
fn hex_digit_of(byte: u8) -> (digit: Option<u8>)
    ensures
        digit == hex_digit(byte),
{
    if 0x30 <= byte && byte <= 0x39 {
        Some(byte - 0x30)
    } else if 0x61 <= byte && byte <= 0x66 {
        Some(byte - 0x61 + 10)
    } else if 0x41 <= byte && byte <= 0x46 {
        Some(byte - 0x41 + 10)
    } else {
        None
    }
}

/// The number that the bytes from `from` on write in hexadecimal digits, at
/// most eight of them.
fn hex_number_of(text: &[u8], from: usize) -> (number: Option<u32>)
    requires
        from <= text@.len(),
        text@.len() - from <= 8,
    ensures
        match hex_number(text@.skip(from as int)) {
            Some(value) => number == Some(value as u32) && value < sixteen_to(
                (text@.len() - from) as nat,
            ),
            None => number is None,
        },
{
    let ghost digits = text@.skip(from as int);
    let mut number: u64 = 0;
    let mut i: usize = from;
    proof {
        reveal_with_fuel(sixteen_to, 10);
    }
    while i < text.len()
        invariant
            from <= i <= text@.len(),
            text@.len() - from <= 8,
            digits == text@.skip(from as int),
            hex_number(digits.take(i - from)) == Some(number as nat),
            number < sixteen_to((i - from) as nat),
        decreases text@.len() - i,
    {
        proof {
            reveal_with_fuel(sixteen_to, 10);
            assert(digits.take(i - from + 1).drop_last() =~= digits.take(i - from));
            assert(digits[i - from] == text@[i as int]);
        }
        match hex_digit_of(text[i]) {
            Some(digit) => {
                number = 16 * number + digit as u64;
            },
            None => {
                proof {
                    lemma_no_digit_no_number(digits, i - from);
                }
                return None;
            },
        }
        i += 1;
    }
    proof {
        reveal_with_fuel(sixteen_to, 10);
        assert(digits.take(digits.len() as int) =~= digits);
    }
    Some(number as u32)
}

impl Color {
    /// The colour that a text writes, or nothing where the text has three or
    /// four characters after its `#` signs and one of the first three is no
    /// hexadecimal digit.
    pub fn parse(s: &str) -> (color: Option<Color>)
        ensures
            match color_word(s.spec_bytes()) {
                Some(word) => color == Some(Color { data: word }),
                None => color is None,
            },
    {
        let text = s.as_bytes();
        let mut start: usize = 0;
        while start < text.len() && text[start] == 0x23
            invariant
                start <= text@.len(),
                forall|k: int| 0 <= k < start ==> text@[k] == 0x23,
            decreases text@.len() - start,
        {
            start += 1;
        }
        proof {
            lemma_hashes_skipped(text@, start as int);
        }
        let ghost clean = text@.skip(start as int);
        let len = text.len() - start;
        if len == 3 || len == 4 {
            assert(clean[0] == text@[start + 0] && clean[1] == text@[start + 1] && clean[2]
                == text@[start + 2]);
            let r = hex_digit_of(text[start]);
            let g = hex_digit_of(text[start + 1]);
            let b = hex_digit_of(text[start + 2]);
            match (r, g, b) {
                (Some(r), Some(g), Some(b)) => {
                    let a = if len == 3 {
                        255
                    } else {
                        r * 17
                    };
                    Some(Color::rgba(r * 17, g * 17, b * 17, a))
                },
                _ => None,
            }
        } else if len == 6 || len == 8 {
            assert(clean[0] == text@[start + 0]);
            let from = if text[start] == 0x2b {
                start + 1
            } else {
                start
            };
            proof {
                reveal_with_fuel(sixteen_to, 10);
                if from == start + 1 {
                    assert(clean.skip(1) =~= text@.skip(from as int));
                }
            }
            let number = match hex_number_of(text, from) {
                Some(number) => number,
                None => 0,
            };
            if len == 6 {
                Some(Color { data: 256 * number + 255 })
            } else {
                Some(Color { data: number })
            }
        } else {
            Some(Color { data: 0 })
        }
    }

    /// The colour that a text writes.
    pub fn from(s: &str) -> (color: Color)
        requires
            color_word(s.spec_bytes()) is Some,
        ensures
            Some(color.data) == color_word(s.spec_bytes()),
    {
        match Color::parse(s) {
            Some(color) => color,
            None => Color { data: 0 },
        }
    }
}

/// The character that writes a hexadecimal digit, in lower case.
pub open spec fn digit_char(digit: u8) -> char {
    if digit == 0 {
        '0'
    } else if digit == 1 {
        '1'
    } else if digit == 2 {
        '2'
    } else if digit == 3 {
        '3'
    } else if digit == 4 {
        '4'
    } else if digit == 5 {
        '5'
    } else if digit == 6 {
        '6'
    } else if digit == 7 {
        '7'
    } else if digit == 8 {
        '8'
    } else if digit == 9 {
        '9'
    } else if digit == 10 {
        'a'
    } else if digit == 11 {
        'b'
    } else if digit == 12 {
        'c'
    } else if digit == 13 {
        'd'
    } else if digit == 14 {
        'e'
    } else {
        'f'
    }
}

/// A number in hexadecimal digits, lower case, without leading zeros.
pub open spec fn lower_hex(number: nat) -> Seq<char>
    decreases number,
{
    if number < 16 {
        seq![digit_char(number as u8)]
    } else {
        lower_hex(number / 16).push(digit_char((number % 16) as u8))
    }
}

/// The text that writes a hexadecimal digit.
fn digit_text(digit: u8) -> (text: &'static str)
    requires
        digit < 16,
    ensures
        text@ == seq![digit_char(digit)],
{
    proof {
        reveal_strlit("0");
        reveal_strlit("1");
        reveal_strlit("2");
        reveal_strlit("3");
        reveal_strlit("4");
        reveal_strlit("5");
        reveal_strlit("6");
        reveal_strlit("7");
        reveal_strlit("8");
        reveal_strlit("9");
        reveal_strlit("a");
        reveal_strlit("b");
        reveal_strlit("c");
        reveal_strlit("d");
        reveal_strlit("e");
        reveal_strlit("f");
    }
    let text = if digit == 0 {
        "0"
    } else if digit == 1 {
        "1"
    } else if digit == 2 {
        "2"
    } else if digit == 3 {
        "3"
    } else if digit == 4 {
        "4"
    } else if digit == 5 {
        "5"
    } else if digit == 6 {
        "6"
    } else if digit == 7 {
        "7"
    } else if digit == 8 {
        "8"
    } else if digit == 9 {
        "9"
    } else if digit == 10 {
        "a"
    } else if digit == 11 {
        "b"
    } else if digit == 12 {
        "c"
    } else if digit == 13 {
        "d"
    } else if digit == 14 {
        "e"
    } else {
        "f"
    };
    assert(text@ =~= seq![digit_char(digit)]);
    text
}

impl Color {
    /// The colour as a text: `transparent` where alpha is zero, and else a
    /// `#` sign and the word in hexadecimal digits, lower case, without
    /// leading zeros.
    pub open spec fn text(self) -> Seq<char> {
        if self.alpha_channel() == 0 {
            "transparent"@
        } else {
            seq!['#'] + lower_hex(self.data as nat)
        }
    }

    /// The colour as a text.
    pub fn to_string(&self) -> (text: String)
        ensures
            text@ == self.text(),
    {
        if self.a() == 0 {
            return String::from_str("transparent");
        }
        let data: u64 = self.data as u64;
        assert(data != 0) by {
            let d: u32 = self.data;
            assert(d % 0x100 != 0 ==> d != 0);
        }
        let mut text = String::from_str("#");
        proof {
            reveal_strlit("#");
            assert(text@ =~= seq!['#']);
        }
        // the bits of the word that are still to be written
        let mut shift: u64 = 32;
        assert(data >> 32 == 0) by (bit_vector)
            requires
                data <= 0xffff_ffff,
        ;
        while shift > 0
            invariant
                shift <= 32,
                shift % 4 == 0,
                data <= 0xffff_ffff,
                data >> shift == 0 ==> text@ == seq!['#'],
                data >> shift != 0 ==> text@ == seq!['#'] + lower_hex((data >> shift) as nat),
            decreases shift,
        {
            let ghost head = data >> shift;
            let ghost written = text@;
            shift = shift - 4;
            let next = data >> shift;
            let digit = (next & 0xF) as u8;
            assert(next >> 4 == head && next & 0xF == next % 16 && next >> 4 == next / 16 && (next
                & 0xF) < 16) by (bit_vector)
                requires
                    shift <= 28,
                    next == data >> shift,
                    head == data >> ((shift + 4) as u64),
            ;
            if next != 0 {
                text.append(digit_text(digit));
                proof {
                    if head == 0 {
                        assert(text@ =~= seq!['#'] + lower_hex(next as nat));
                    } else {
                        assert(next >= 16);
                        assert(text@ =~= seq!['#'] + lower_hex(next as nat));
                    }
                }
            }
        }
        assert(data >> 0 == data) by (bit_vector);
        text
    }
}

} // verus!
