use poros::bytes::{find_bytes, find_header_end};
use poros::duration::parse_duration;
use poros::ip::{format_host, names_loopback, IpAddr};
use poros::list::sorted_set;
use poros::number::{decimal_string, number_of, signed_number};
use poros::order::sort_strings;
use poros::text::{join_strings, same_ignoring_case, split_lines, split_words, trimmed};

fn chars(text: &str) -> Vec<char> {
    text.chars().collect()
}

fn ip(text: &str) -> Option<IpAddr> {
    IpAddr::parse(&chars(text))
}

#[test]
fn durations_are_computed_in_doubles() {
    let units = [
        ("s", 1_000_000_000u64),
        ("m", 60_000_000_000),
        ("h", 3_600_000_000_000),
    ];
    let numbers = [
        "0", "1", "1.5", ".5", "7.", "0.1", "0.3", "0.000000001", "0.0000000001", "1.0000000005",
        "2.9999999999999999", "123456.789012345678", "9007199254740993", "18446744073.709551615",
        "18446744073.709551616", "5124095.576", "307445734.5", "0.30000000000000004",
        "1.1", "33.33333333333333333333", "4503599627.370497", "99999999999999999999999",
        "00012.50", "0.99999999999999994", "0.99999999999999995", "2.2250738585072011",
    ];
    for (unit, nanos) in units {
        for number in numbers {
            let value: f64 = number.parse().expect("a number");
            let expected = value * (nanos as f64);
            let text = format!("{number}{unit}");
            let found = parse_duration(&text);
            if expected > (u64::MAX as f64) {
                assert!(found.is_err(), "{text}");
            } else {
                assert_eq!(found, Ok(expected as u64), "{text}");
            }
        }
    }
}

#[test]
fn addresses_are_read() {
    assert_eq!(ip("127.0.0.1"), Some(IpAddr::V4(0x7f00_0001)));
    assert_eq!(ip("255.255.255.255"), Some(IpAddr::V4(u32::MAX)));
    assert_eq!(ip("::"), Some(IpAddr::V6(0)));
    assert_eq!(ip("::1"), Some(IpAddr::V6(1)));
    assert_eq!(
        ip("2001:DB8::8:800:200c:417a"),
        Some(IpAddr::V6(0x2001_0db8_0000_0000_0008_0800_200c_417a))
    );
    assert_eq!(ip("1:2:3:4:5:6:7::"), Some(IpAddr::V6(0x0001_0002_0003_0004_0005_0006_0007_0000)));
    assert_eq!(ip("::ffff:127.0.0.1"), Some(IpAddr::V6(0xffff_7f00_0001)));
    assert_eq!(
        ip("1:2:3:4:5:6:1.2.3.4"),
        Some(IpAddr::V6(0x0001_0002_0003_0004_0005_0006_0102_0304))
    );
    for bad in [
        "", "1", "1.2.3", "1.2.3.4.5", "256.0.0.1", "01.2.3.4", "1.2.3.+4", ":", ":::", "1::2::3",
        "1:2:3:4:5:6:7", "1:2:3:4:5:6:7:8:9", "12345::", "g::", "1.2.3.4::", "::1.2.3",
        "1:2:3:4:5:6:7:1.2.3.4", "1:2:3:4:5:6:7:8::", "fe80::1%eth0", "[::1]", " ::1",
    ] {
        assert_eq!(ip(bad), None, "{bad}");
    }
}

#[test]
fn addresses_are_written() {
    let host = |address: IpAddr| format_host(&address);
    assert_eq!(host(IpAddr::V4(0x0a00_0102)), "10.0.1.2");
    assert_eq!(host(IpAddr::V6(0)), "[::]");
    assert_eq!(host(IpAddr::V6(1)), "[::1]");
    assert_eq!(host(IpAddr::V6(0xffff_7f00_0001)), "127.0.0.1");
    assert_eq!(
        host(IpAddr::V6(0x2001_0db8_0000_0000_0001_0000_0000_0001)),
        "[2001:db8::1:0:0:1]"
    );
    assert_eq!(
        host(IpAddr::V6(0x0001_0000_0003_0004_0005_0006_0007_0008)),
        "[1:0:3:4:5:6:7:8]"
    );
    assert_eq!(
        host(IpAddr::V6(0x0001_0002_0003_0004_0005_0006_0000_0000)),
        "[1:2:3:4:5:6::]"
    );
    for text in ["10.0.1.2", "0.0.0.0", "255.1.20.100"] {
        assert_eq!(host(ip(text).expect("an address")), text);
    }
}

#[test]
fn loopback_addresses() {
    assert!(names_loopback(&chars("127.3.2.1")));
    assert!(names_loopback(&chars("::1")));
    assert!(!names_loopback(&chars("::ffff:127.0.0.1")));
    assert!(!names_loopback(&chars("localhost")));
    assert!(IpAddr::V4(0).is_unspecified() && IpAddr::V6(0).is_unspecified());
    assert!(!IpAddr::V6(1).is_unspecified());
}

#[test]
fn numbers_are_read_and_written() {
    for number in [0, 7, 10, 65535, u64::MAX] {
        let text = decimal_string(number);
        assert_eq!(text, number.to_string());
        assert_eq!(number_of(&chars(&text), 10, u64::MAX), Some(number));
    }
    assert_eq!(number_of(&chars("+12"), 10, 12), Some(12));
    assert_eq!(number_of(&chars("13"), 10, 12), None);
    assert_eq!(number_of(&chars("Ff"), 16, 255), Some(255));
    for bad in ["", "+", "-1", "1 ", "1_0", "٣"] {
        assert_eq!(number_of(&chars(bad), 10, u64::MAX), None, "{bad}");
    }
    assert_eq!(
        signed_number(&chars("-9223372036854775808")),
        Some(i64::MIN)
    );
    assert_eq!(signed_number(&chars("9223372036854775808")), None);
    assert_eq!(signed_number(&chars("-")), None);
}

#[test]
fn texts_are_split_and_joined() {
    let split: Vec<String> = split_lines(&chars("a\r\nb\n\nc\r"))
        .into_iter()
        .map(|line| line.into_iter().collect())
        .collect();
    assert_eq!(split, vec!["a", "b", "", "c\r"]);
    let found: Vec<String> = split_words(&chars(" a\u{a0}b\tc\u{3000}"))
        .into_iter()
        .map(|word| word.into_iter().collect())
        .collect();
    assert_eq!(found, vec!["a", "b", "c"]);
    assert_eq!(trimmed(&chars(" \u{2003}x y\n")), &chars("x y")[..]);
    assert!(same_ignoring_case(&chars("HoSt"), &chars("hOsT")));
    assert!(!same_ignoring_case(&chars("É"), &chars("é")));
    let list = vec!["a".to_string(), String::new(), "b".to_string()];
    assert_eq!(join_strings(&list, ", "), "a, , b");
}

#[test]
fn lists_are_sorted() {
    let list: Vec<String> = ["b", "a", "é", "ab", "a", ""]
        .iter()
        .map(|text| text.to_string())
        .collect();
    let mut expected = list.clone();
    expected.sort();
    assert_eq!(sort_strings(list.clone()), expected);
    expected.dedup();
    assert_eq!(sorted_set(list), expected);
}

#[test]
fn bytes_are_found() {
    assert_eq!(find_header_end(b"ab\r\n\r\ncd"), Some(2));
    assert_eq!(find_header_end(b"ab\r\n\r"), None);
    assert_eq!(find_bytes(b"aab", b"ab"), Some(1));
    assert_eq!(find_bytes(b"a", b"ab"), None);
    assert_eq!(find_bytes(b"", b""), Some(0));
}

#[test]
fn whole_units_are_exact() {
    let second: u64 = 1_000_000_000;
    for n in [0, 1, 7, 45, 99_999, 100_000] {
        assert_eq!(parse_duration(&format!("{n}s")), Ok(n * second));
        assert_eq!(parse_duration(&format!("{n}m")), Ok(60 * n * second));
        assert_eq!(parse_duration(&format!("{n}h")), Ok(3600 * n * second));
        for unit in ["", "ns", "us", "ms", "d", "m30s"] {
            assert!(parse_duration(&format!("{n}{unit}")).is_err(), "{n}{unit}");
        }
    }
}
