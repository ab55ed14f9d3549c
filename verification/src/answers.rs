//! The answers of a driver's author, as texts, and the numbers that they
//! stand for.

use crate::descriptor::trim;
use crate::descriptor::trim_bounds;
use crate::descriptor::trim_text;
use crate::descriptor::trimmed;
use crate::driver::Options;
use crate::text::find_byte;
use crate::text::index_of_byte;
use crate::driver::OptionsView;
use vstd::prelude::*;
use vstd::string::*;
use vstd::utf8::*;

verus! {

/// The value of a digit in the given radix, 10 or 16.
pub open spec fn digit_value(b: u8, radix: int) -> Option<int> {
    if 0x30 <= b && b <= 0x39 {
        Some(b - 0x30)
    } else if radix == 16 && 0x61 <= b && b <= 0x66 {
        Some(b - 0x61 + 10)
    } else if radix == 16 && 0x41 <= b && b <= 0x46 {
        Some(b - 0x41 + 10)
    } else {
        None
    }
}

/// The number that a string of digits stands for; none if one of its bytes
/// is no digit.
pub open spec fn digits_value(digits: Seq<u8>, radix: int) -> Option<int>
    decreases digits.len(),
{
    if digits.len() == 0 {
        Some(0)
    } else {
        match (digits_value(digits.drop_last(), radix), digit_value(digits.last(), radix)) {
            (Some(v), Some(d)) => Some(v * radix + d),
            _ => None,
        }
    }
}

/// The number that a text stands for: an optional `+`, then at least one
/// digit and nothing else; none if the number is above `max`.
pub open spec fn number_of(text: Seq<u8>, radix: int, max: int) -> Option<int> {
    let digits = if text.len() > 0 && text[0] == 0x2B {
        text.skip(1)
    } else {
        text
    };
    if digits.len() == 0 {
        None
    } else {
        match digits_value(digits, radix) {
            Some(v) => if v <= max {
                Some(v)
            } else {
                None
            },
            None => None,
        }
    }
}

/// The number that an answer stands for, or `default`.
pub open spec fn number_or(text: Seq<u8>, radix: int, max: int, default: int) -> int {
    match number_of(text, radix, max) {
        Some(v) => v,
        None => default,
    }
}

/// The identifier that an answer stands for: 0 for an empty answer; the
/// hexadecimal number behind `0x`; else the decimal number; 0 where there is
/// no such number or it is above `max`.
pub open spec fn identifier_of(answer: Seq<u8>, max: int) -> int {
    let text = trim(answer);
    if text.len() >= 2 && text[0] == 0x30 && text[1] == 0x78 {
        number_or(text.skip(2), 16, max, 0)
    } else {
        number_or(text, 10, max, 0)
    }
}

/// The part of a version text before its first dot, or all of it.
pub open spec fn first_part(text: Seq<u8>) -> Seq<u8> {
    text.take(index_of_byte(text, 0x2E))
}

/// What follows the first dot of a version text, if there is one.
pub open spec fn after_part(text: Seq<u8>) -> Option<Seq<u8>> {
    let k = index_of_byte(text, 0x2E);
    if 0 <= k < text.len() {
        Some(text.skip(k + 1))
    } else {
        None
    }
}

/// The number of a part of a version: that of the text up to its first
/// dot, at most 255, or `default`; 0 where the part is not there.
pub open spec fn part_or(text: Option<Seq<u8>>, default: int) -> int {
    match text {
        Some(t) => number_or(first_part(t), 10, 255, default),
        None => 0,
    }
}

/// What follows a part of a version.
pub open spec fn next_part(text: Option<Seq<u8>>) -> Option<Seq<u8>> {
    match text {
        Some(t) => after_part(t),
        None => None,
    }
}

/// The three numbers of a version: the parts of the answer between its
/// dots, each at most 255; 1 for a first part that is no such number, 0 for
/// a second or third that is none or is not there.
pub open spec fn version_of(answer: Seq<u8>) -> Seq<u8> {
    let first = Some(trim(answer));
    let second = next_part(first);
    let third = next_part(second);
    seq![part_or(first, 1) as u8, part_or(second, 0) as u8, part_or(third, 0) as u8]
}

/// The options that the answers of an author stand for. The name and the
/// description are the answers without the white space around them.
pub open spec fn options_of(
    name: Seq<char>,
    description: Seq<char>,
    version: Seq<u8>,
    manufacturer: Seq<u8>,
    device: Seq<u8>,
    subsystem: Seq<u8>,
    driver_type: Seq<u8>,
) -> OptionsView {
    OptionsView {
        driver_name: trimmed(name),
        driver_description: trimmed(description),
        driver_version: version_of(version),
        manufacturer: identifier_of(manufacturer, 0xFFFF) as u16,
        device_id: identifier_of(device, 0xFFFF) as u16,
        subsystem: identifier_of(subsystem, 0xFF) as u8,
        driver_type: number_or(trim(driver_type), 10, 0xFF, 0) as u8,
    }
}

/// The value of a digit.
fn digit(b: u8, hex: bool) -> (r: Option<u64>)
    ensures
        match r {
            Some(d) => digit_value(b, if hex { 16 } else { 10 }) == Some(d as int) && d < 16,
            None => digit_value(b, if hex { 16 } else { 10 }) is None,
        },
{
    if 0x30 <= b && b <= 0x39 {
        Some((b - 0x30) as u64)
    } else if hex && 0x61 <= b && b <= 0x66 {
        Some((b - 0x61 + 10) as u64)
    } else if hex && 0x41 <= b && b <= 0x46 {
        Some((b - 0x41 + 10) as u64)
    } else {
        None
    }
}

/// A string of digits stands for no smaller number than any string that it
/// begins with.
proof fn lemma_digits_grow(digits: Seq<u8>, radix: int, k: int)
    requires
        radix == 10 || radix == 16,
        0 <= k <= digits.len(),
    ensures
        digits_value(digits.take(k), radix) is None ==> digits_value(digits, radix) is None,
        digits_value(digits, radix) matches Some(v) ==> digits_value(digits.take(k), radix)
            matches Some(w) && 0 <= w <= v,
    decreases digits.len() - k,
{
    if k < digits.len() {
        lemma_digits_grow(digits, radix, k + 1);
        let longer = digits.take(k + 1);
        assert(longer.drop_last() =~= digits.take(k));
        lemma_digits_nonnegative(digits.take(k), radix);
        if let Some(w) = digits_value(digits.take(k), radix) {
            if let Some(d) = digit_value(longer.last(), radix) {
                assert(w * radix + d >= w) by (nonlinear_arith)
                    requires
                        w >= 0,
                        d >= 0,
                        radix >= 1,
                ;
            }
        }
    } else {
        assert(digits.take(k) =~= digits);
        lemma_digits_nonnegative(digits, radix);
    }
}

/// A string of digits stands for no negative number.
proof fn lemma_digits_nonnegative(digits: Seq<u8>, radix: int)
    requires
        radix == 10 || radix == 16,
    ensures
        digits_value(digits, radix) matches Some(v) ==> v >= 0,
    decreases digits.len(),
{
    if digits.len() > 0 {
        lemma_digits_nonnegative(digits.drop_last(), radix);
        if let Some(v) = digits_value(digits.drop_last(), radix) {
            assert(v * radix >= 0) by (nonlinear_arith)
                requires
                    v >= 0,
                    radix >= 1,
            ;
        }
    }
}

/// The number that the bytes of `text` from `from` up to `to` stand for.
pub fn parse_number(text: &[u8], from: usize, to: usize, hex: bool, max: u64) -> (r: Option<u64>)
    requires
        from <= to <= text.len(),
        max <= 0xFFFF_FFFF,
    ensures
        match r {
            Some(v) => number_of(
                text@.subrange(from as int, to as int),
                if hex { 16 } else { 10 },
                max as int,
            ) == Some(v as int) && v <= max,
            None => number_of(
                text@.subrange(from as int, to as int),
                if hex { 16 } else { 10 },
                max as int,
            ) is None,
        },
{
    let ghost radix: int = if hex { 16 } else { 10 };
    let ghost whole = text@.subrange(from as int, to as int);
    let start = if from < to && text[from] == 0x2B {
        from + 1
    } else {
        from
    };
    let ghost digits = text@.subrange(start as int, to as int);
    proof {
        if from < to {
            assert(whole[0] == text@[from as int]);
        }
        if start > from {
            assert(whole.skip(1) =~= digits);
        }
    }
    if start >= to {
        return None;
    }
    let ghost wanted = number_of(whole, radix, max as int);
    let mut value: u64 = 0;
    let mut i: usize = start;
    assert(digits.take(0) =~= Seq::<u8>::empty());
    while i < to
        invariant
            start <= i <= to <= text.len(),
            max <= 0xFFFF_FFFF,
            radix == (if hex { 16int } else { 10int }),
            digits == text@.subrange(start as int, to as int),
            wanted == number_of(text@.subrange(from as int, to as int), radix, max as int),
            wanted == (match digits_value(digits, radix) {
                Some(v) => if v <= max {
                    Some(v)
                } else {
                    None
                },
                None => None,
            }),
            digits_value(digits.take(i - start), radix) == Some(value as int),
            value <= max,
        decreases to - i,
    {
        let ghost before = digits.take(i - start);
        let ghost longer = digits.take(i - start + 1);
        proof {
            assert(longer.drop_last() =~= before);
            assert(longer.last() == text@[i as int]);
            lemma_digits_grow(digits, radix, i - start + 1);
        }
        let d = match digit(text[i], hex) {
            Some(d) => d,
            None => {
                return None;
            },
        };
        let next = if hex {
            value * 16 + d
        } else {
            value * 10 + d
        };
        if next > max {
            return None;
        }
        value = next;
        i += 1;
    }
    assert(digits.take(to - start) =~= digits);
    Some(value)
}

/// The identifier that an answer stands for, at most `max`.
pub fn parse_identifier(answer: &str, max: u64) -> (r: u64)
    requires
        max <= 0xFFFF_FFFF,
    ensures
        r == identifier_of(encode_utf8(answer@), max as int),
        r <= max,
{
    let bytes = answer.as_bytes();
    let (a, b) = trim_bounds(bytes, 0, bytes.len());
    assert(bytes@.subrange(0, bytes@.len() as int) =~= bytes@);
    let ghost text = bytes@.subrange(a as int, b as int);
    let parsed = if b - a >= 2 && bytes[a] == 0x30 && bytes[a + 1] == 0x78 {
        assert(text[0] == bytes@[a as int] && text[1] == bytes@[a + 1]);
        assert(text.skip(2) =~= bytes@.subrange(a + 2, b as int));
        parse_number(bytes, a + 2, b, true, max)
    } else {
        proof {
            if b - a >= 2 {
                assert(text[0] == bytes@[a as int] && text[1] == bytes@[a + 1]);
            }
        }
        parse_number(bytes, a, b, false, max)
    };
    match parsed {
        Some(v) => v,
        None => 0,
    }
}

/// The bytes of `text` from `from` up to `to`, if there is a `from`.
pub open spec fn part_text(text: Seq<u8>, from: Option<usize>, to: usize) -> Option<Seq<u8>> {
    match from {
        Some(f) => Some(text.subrange(f as int, to as int)),
        None => None,
    }
}

/// One number of a version: that of the part that begins at `from`, or
/// `default`; and the place where the next part begins.
fn parse_part(text: &[u8], from: Option<usize>, to: usize, default: u8) -> (r: (u8, Option<usize>))
    requires
        to <= text.len(),
        from matches Some(f) ==> f <= to,
    ensures
        r.0 == part_or(part_text(text@, from, to), default as int),
        part_text(text@, r.1, to) == next_part(part_text(text@, from, to)),
        r.1 matches Some(f) ==> f <= to,
{
    match from {
        None => (0, None),
        Some(f) => {
            let ghost part = text@.subrange(f as int, to as int);
            let end = find_byte(text, f, to, 0x2E);
            assert(part.take(end - f) =~= text@.subrange(f as int, end as int));
            let value = match parse_number(text, f, end, false, 255) {
                Some(v) => v as u8,
                None => default,
            };
            if end < to {
                assert(part.skip(end - f + 1) =~= text@.subrange(end + 1, to as int));
                (value, Some(end + 1))
            } else {
                (value, None)
            }
        },
    }
}

/// The three numbers of a version.
pub fn parse_version(answer: &str) -> (r: [u8; 3])
    ensures
        r@ == version_of(encode_utf8(answer@)),
{
    let bytes = answer.as_bytes();
    let (a, b) = trim_bounds(bytes, 0, bytes.len());
    assert(bytes@.subrange(0, bytes@.len() as int) =~= bytes@);
    let (major, second) = parse_part(bytes, Some(a), b, 1);
    let (minor, third) = parse_part(bytes, second, b, 0);
    let (patch, _) = parse_part(bytes, third, b, 0);
    let r = [major, minor, patch];
    assert(r@ =~= seq![major, minor, patch]);
    r
}

/// The type of a driver that an answer stands for: its decimal number, or
/// 0.
pub fn parse_driver_type(answer: &str) -> (r: u8)
    ensures
        r == number_or(trim(encode_utf8(answer@)), 10, 0xFF, 0),
{
    let bytes = answer.as_bytes();
    let (a, b) = trim_bounds(bytes, 0, bytes.len());
    assert(bytes@.subrange(0, bytes@.len() as int) =~= bytes@);
    match parse_number(bytes, a, b, false, 255) {
        Some(v) => v as u8,
        None => 0,
    }
}

impl Options {
    /// The options that the answers of an author stand for: the version as
    /// up to three numbers between dots, the manufacturer, the device and
    /// the subsystem in decimal or, behind `0x`, in hexadecimal, and the
    /// type in decimal. The name and the description lose the white space
    /// around them.
    pub fn from_answers(
        name: &str,
        description: &str,
        version: &str,
        manufacturer: &str,
        device: &str,
        subsystem: &str,
        driver_type: &str,
    ) -> (o: Options)
        ensures
            o@ == options_of(
                name@,
                description@,
                encode_utf8(version@),
                encode_utf8(manufacturer@),
                encode_utf8(device@),
                encode_utf8(subsystem@),
                encode_utf8(driver_type@),
            ),
    {
        Options::new(
            trim_text(name),
            trim_text(description),
            parse_version(version),
            parse_identifier(manufacturer, 0xFFFF) as u16,
            parse_identifier(device, 0xFFFF) as u16,
            parse_identifier(subsystem, 0xFF) as u8,
            parse_driver_type(driver_type),
        )
    }
}

} // verus!
