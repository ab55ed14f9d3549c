use arf::answers::{parse_driver_type, parse_identifier, parse_number, parse_version};
use arf::descriptor::trim_text;
use arf::Options;

fn samples() -> Vec<&'static str> {
    vec![
        "", " ", "0", "1", "42", "255", "256", "65535", "65536", "99999999999999999999", "+7",
        "+", "-", "-1", "-0", "++1", "+-1", "1+", "0x", "0x0", "0x1f", "0x1F", "0xFFFF",
        "0x10000", "0XFF", "0x+5", "0x-5", "0xg", "x10", "1f", "ff", "007", "0x0000ff", " 12 ",
        "\t0x20\r\n", "1 2", "1_000", "12a", "٣", "１２", "1.0", "0x1.0", "\u{a0}9\u{2003}",
        "4294967295", "4294967296", "0xFFFFFFFF", "0x100000000", "18446744073709551616",
    ]
}

fn by_std16(input: &str) -> u16 {
    if input.trim().is_empty() {
        0
    } else {
        let trimmed = input.trim();
        if trimmed.starts_with("0x") {
            u16::from_str_radix(&trimmed[2..], 16).unwrap_or(0)
        } else {
            trimmed.parse().unwrap_or(0)
        }
    }
}

fn by_std8(input: &str) -> u8 {
    if input.trim().is_empty() {
        0
    } else {
        let trimmed = input.trim();
        if trimmed.starts_with("0x") {
            u8::from_str_radix(&trimmed[2..], 16).unwrap_or(0)
        } else {
            trimmed.parse().unwrap_or(0)
        }
    }
}

fn by_std_version(input: &str) -> [u8; 3] {
    let version_str = input.trim();
    let parts: Vec<&str> = version_str.split('.').collect();
    [
        parts.get(0).unwrap_or(&"1").parse().unwrap_or(1),
        parts.get(1).unwrap_or(&"0").parse().unwrap_or(0),
        parts.get(2).unwrap_or(&"0").parse().unwrap_or(0),
    ]
}

fn by_std_type(input: &str) -> u8 {
    if input.trim().is_empty() {
        0
    } else {
        input.trim().parse().unwrap_or(0)
    }
}

#[test]
fn identifiers() {
    assert_eq!(parse_identifier("0x8086", 0xFFFF), 0x8086);
    assert_eq!(parse_identifier("32902", 0xFFFF), 32902);
    assert_eq!(parse_identifier("", 0xFFFF), 0);
    assert_eq!(parse_identifier("0x10000", 0xFFFF), 0);
    assert_eq!(parse_identifier("65536", 0xFFFF), 0);
    assert_eq!(parse_identifier("0xff", 0xFF), 255);
    assert_eq!(parse_identifier("0x100", 0xFF), 0);
    assert_eq!(parse_identifier("  +12\n", 0xFF), 12);
    for s in samples() {
        assert_eq!(parse_identifier(s, 0xFFFF), by_std16(s) as u64, "{:?}", s);
        assert_eq!(parse_identifier(s, 0xFF), by_std8(s) as u64, "{:?}", s);
    }
}

#[test]
fn versions() {
    assert_eq!(parse_version("1.2.3"), [1, 2, 3]);
    assert_eq!(parse_version(""), [1, 0, 0]);
    assert_eq!(parse_version("7"), [7, 0, 0]);
    assert_eq!(parse_version("7.9"), [7, 9, 0]);
    assert_eq!(parse_version("1.2.3.4"), [1, 2, 3]);
    assert_eq!(parse_version("x.y.z"), [1, 0, 0]);
    assert_eq!(parse_version("256.255.254"), [1, 255, 254]);
    assert_eq!(parse_version(" 2.0.1\n"), [2, 0, 1]);
    assert_eq!(parse_version("1. 2.3"), [1, 0, 3]);
    assert_eq!(parse_version(".5"), [1, 5, 0]);
    assert_eq!(parse_version("..5"), [1, 0, 5]);
    assert_eq!(parse_version("3."), [3, 0, 0]);
    let more = ["1.2.3", "", "7", "0.0.0", "1..2", "...", "+1.+2.+3", "1.2.3.", "a", "1.b", "0x1.2"];
    for s in samples().into_iter().chain(more) {
        assert_eq!(parse_version(s), by_std_version(s), "{:?}", s);
    }
}

#[test]
fn driver_types() {
    assert_eq!(parse_driver_type("5"), 5);
    assert_eq!(parse_driver_type(""), 0);
    assert_eq!(parse_driver_type("0x5"), 0);
    assert_eq!(parse_driver_type("300"), 0);
    for s in samples() {
        assert_eq!(parse_driver_type(s), by_std_type(s), "{:?}", s);
    }
}

#[test]
fn numbers() {
    assert_eq!(parse_number(b"x123y", 1, 4, false, 255), Some(123));
    assert_eq!(parse_number(b"x123y", 1, 5, false, 255), None);
    assert_eq!(parse_number(b"x123y", 1, 1, false, 255), None);
    assert_eq!(parse_number(b"256", 0, 3, false, 255), None);
    assert_eq!(parse_number(b"256", 0, 3, false, 256), Some(256));
    assert_eq!(parse_number(b"fF", 0, 2, true, 255), Some(255));
    assert_eq!(parse_number(b"fF", 0, 2, false, 255), None);
    assert_eq!(parse_number(b"+0", 0, 2, false, 0), Some(0));
    assert_eq!(parse_number(b"4294967295", 0, 10, false, 0xFFFF_FFFF), Some(4294967295));
    assert_eq!(parse_number(b"4294967296", 0, 10, false, 0xFFFF_FFFF), None);
}

#[test]
fn options_from_answers() {
    let o = Options::from_answers(
        "  netcard\n",
        "\u{a0}A driver \u{2003}\r\n",
        "1.4",
        "0x8086",
        "4110",
        "0x2",
        "3",
    );
    assert_eq!(o.driver_name(), "netcard");
    assert_eq!(o.driver_description(), "A driver");
    assert_eq!(o.driver_version(), [1, 4, 0]);
    assert_eq!(o.manufacturer(), 0x8086);
    assert_eq!(o.device_id(), 4110);
    assert_eq!(o.subsystem(), 2);
    assert_eq!(o.driver_type(), 3);
    let o = Options::from_answers("", "", "", "", "", "", "");
    assert_eq!(o.driver_version(), [1, 0, 0]);
    assert_eq!(o.manufacturer(), 0);
    assert_eq!(o.device_id(), 0);
    assert_eq!(o.subsystem(), 0);
    assert_eq!(o.driver_type(), 0);
}

#[test]
fn answers_lose_the_white_space_around_them() {
    assert_eq!(trim_text("  a b \t"), "a b");
    assert_eq!(trim_text(""), "");
    assert_eq!(trim_text(" \n\r\t\u{b}\u{c}"), "");
    assert_eq!(trim_text("\u{e9}t\u{e9}"), "\u{e9}t\u{e9}");
    for c in (0u32..0x3100).filter_map(char::from_u32) {
        let text = format!("{}x{}y{}", c, c, c);
        assert_eq!(trim_text(&text), text.trim(), "U+{:04X}", c as u32);
    }
    let o = Options::from_answers(" \u{3000}n\u{3000} ", "\td\n", "", "", "", "", "");
    assert_eq!(o.driver_name(), "n");
    assert_eq!(o.driver_description(), "d");
}
