use curb::display::{format_bytes, format_rate, format_uptime, truncate};
use curb::rate::{parse_rate, RateError};

#[test]
fn parses_bit_and_byte_rates() {
    assert_eq!(parse_rate("10mbit").unwrap(), 1_250_000);
    assert_eq!(parse_rate("8bit").unwrap(), 1);
    assert_eq!(parse_rate("1kbit").unwrap(), 125);
    assert_eq!(parse_rate("2MB").unwrap(), 2 * 1024 * 1024);
    assert_eq!(parse_rate("512kb").unwrap(), 512 * 1024);
    assert_eq!(parse_rate("1000").unwrap(), 1000); // bare = bytes/sec
    assert_eq!(parse_rate("3 Mbit").unwrap(), 375_000);
}

#[test]
fn rejects_garbage() {
    assert!(parse_rate("fast").is_err());
    assert!(parse_rate("-5mbit").is_err());
}

/// The same rule by the floating point of the machine.
fn by_machine(s: &str) -> Result<u64, RateError> {
    let t = s.trim().to_ascii_lowercase().replace(' ', "");
    let units: [(&str, f64); 11] = [
        ("gbit", 1e9 / 8.0),
        ("mbit", 1e6 / 8.0),
        ("kbit", 1e3 / 8.0),
        ("bit", 1.0 / 8.0),
        ("gbyte", (1u64 << 30) as f64),
        ("mbyte", (1u64 << 20) as f64),
        ("kbyte", (1u64 << 10) as f64),
        ("gb", (1u64 << 30) as f64),
        ("mb", (1u64 << 20) as f64),
        ("kb", (1u64 << 10) as f64),
        ("b", 1.0),
    ];
    for (suffix, factor) in units {
        if let Some(num) = t.strip_suffix(suffix) {
            let v: f64 = num.parse().map_err(|_| RateError::InvalidNumber)?;
            if v < 0.0 {
                return Err(RateError::Negative);
            }
            return Ok((v * factor) as u64);
        }
    }
    let v: f64 = t.parse().map_err(|_| RateError::Unrecognized)?;
    Ok(v as u64)
}

#[test]
fn rates_agree_with_floating_point() {
    let numbers = [
        "0", "1", "7", "0.1", "0.29", "0.57", "1.1", "2.675", "4.35", "99.99", "1e3", "1E3", "1e+3",
        "1e-3", "12.5e1", ".5", "5.", ".", "", "+", "-", "+3", "-0", "-0.0", "-1", "-1e-400",
        "-2.4e-324", "-2.5e-324", "-1e-323", "1e", "e5", "1e+", "1.2.3", "0x10", "1_000", "inf",
        "infinity", "nan", "-inf", "-nan", "+inf", "infinit", "9007199254740993",
        "9007199254740992.9999", "18446744073709551615", "18446744073709551616", "1e19", "1e20",
        "1e30", "1e308", "1e309", "1e999999999999999999999999999999999999999999",
        "1e-999999999999999999999999999999999999999999", "0e99999999999999999999",
        "0.000000000000000000000000000001", "123456789012345678901234567890",
        "0.1000000000000000055511151231257827021181583404541015625",
        "0.10000000000000000555111512312578270211815834045410156251",
        "4503599627370496.5", "4503599627370497.5", "72057594037927945", "0.568", "1.008", "１",
    ];
    let units = [
        "", "b", "B", "bit", "kbit", "mbit", "gbit", "kb", "mb", "gb", "kbyte", "mbyte", "GByte",
        " k b ", "kib", "bits", "tbit",
    ];
    for n in numbers {
        for u in units {
            let s = format!("{n}{u}");
            assert_eq!(parse_rate(&s), by_machine(&s), "{s}");
        }
    }
}

#[test]
fn small_fractions_agree_with_floating_point() {
    for i in 0..2000u32 {
        for (div, digits) in [(1000, 3), (100, 2)] {
            let s = format!("{}.{:0w$}kbit", i / div, i % div, w = digits);
            assert_eq!(parse_rate(&s), by_machine(&s), "{s}");
        }
    }
}

#[test]
fn case_and_spaces_are_ignored() {
    for s in ["10MBIT", " 10 mbit", "1 0 m B i T ", "\t10mbit\n", "1 0Mb it"] {
        assert_eq!(parse_rate(s), Ok(1_250_000), "{s:?}");
    }
    // Other white space is not taken out of the middle.
    assert_eq!(parse_rate("10\tmbit"), Err(RateError::InvalidNumber));
}

#[test]
fn errors_say_what_is_wrong() {
    assert_eq!(parse_rate("xmbit"), Err(RateError::InvalidNumber));
    assert_eq!(parse_rate("-5mbit"), Err(RateError::Negative));
    assert_eq!(parse_rate("fast"), Err(RateError::Unrecognized));
    assert_eq!(
        RateError::InvalidNumber.message("xmbit"),
        "invalid number in rate 'xmbit'"
    );
    assert_eq!(RateError::Negative.message("-5mbit"), "rate cannot be negative: '-5mbit'");
    assert_eq!(
        RateError::Unrecognized.message("fast"),
        "unrecognized rate 'fast' (try e.g. 10mbit, 2MB)"
    );
}

fn rate_by_machine(bytes_per_sec: u64) -> String {
    let bits = bytes_per_sec as f64 * 8.0;
    for (unit, scale) in [("Gbit", 1e9), ("Mbit", 1e6), ("Kbit", 1e3)] {
        if bits >= scale {
            return format!("{:.1} {}", bits / scale, unit);
        }
    }
    format!("{bits:.0} bit")
}

fn bytes_by_machine(bytes: u64) -> String {
    let b = bytes as f64;
    for (unit, scale) in [("GB", 1u64 << 30), ("MB", 1u64 << 20), ("KB", 1u64 << 10)] {
        if bytes >= scale {
            return format!("{:.1} {}", b / scale as f64, unit);
        }
    }
    format!("{bytes} B")
}

#[test]
fn figures_agree_with_floating_point() {
    let mut values = vec![0, 1, 124, 125, 126, 1023, 1024, 1075, 1076, 1126, 1177, u64::MAX];
    for shift in 0..64 {
        for delta in [0u64, 1, 2, 3, 51, 52, 53] {
            values.push((1u64 << shift).wrapping_add(delta));
            values.push((1u64 << shift).wrapping_sub(delta));
        }
    }
    let mut x = 88172645463325252u64;
    for _ in 0..300 {
        x ^= x << 13;
        x ^= x >> 7;
        x ^= x << 17;
        values.push(x >> (x % 60));
    }
    for v in values {
        assert_eq!(format_rate(v), rate_by_machine(v), "{v}");
        assert_eq!(format_bytes(v), bytes_by_machine(v), "{v}");
    }
}

#[test]
fn figures_in_their_units() {
    assert_eq!(format_rate(0), "0 bit");
    assert_eq!(format_rate(124), "992 bit");
    assert_eq!(format_rate(125), "1.0 Kbit");
    assert_eq!(format_rate(1_250_000), "10.0 Mbit");
    assert_eq!(format_rate(125_000_000), "1.0 Gbit");
    assert_eq!(format_bytes(1023), "1023 B");
    assert_eq!(format_bytes(1536), "1.5 KB");
    assert_eq!(format_bytes(5 << 30), "5.0 GB");
}

#[test]
fn uptimes_leave_out_leading_zeros() {
    assert_eq!(format_uptime(0), "0s");
    assert_eq!(format_uptime(59), "59s");
    assert_eq!(format_uptime(60), "1m 0s");
    assert_eq!(format_uptime(3_600), "1h 0m 0s");
    assert_eq!(format_uptime(93_784), "1d 2h 3m 4s");
    assert_eq!(format_uptime(86_400), "1d 0h 0m 0s");
}

#[test]
fn long_names_are_cut() {
    assert_eq!(truncate("abc", 3), "abc");
    assert_eq!(truncate("abcd", 3), "ab…");
    assert_eq!(truncate("äöüß", 3), "äö…");
    assert_eq!(truncate("abcd", 0), "…");
}
