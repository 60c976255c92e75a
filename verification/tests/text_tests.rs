use rust_nator::clock::now;
use rust_nator::config::{arg, menu_apply, Fm, Md, Ps};
use rust_nator::text::{
    centi_string, dec_u128, dec_u64, esc, join_path, meminfo_mb, parse_u64, parse_usize, str_eq,
};

#[test]
fn escaping_backslash_and_quote() {
    assert_eq!(esc("plain"), "plain");
    assert_eq!(esc("a\\b\"c"), "a\\\\b\\\"c");
    assert_eq!(esc(""), "");
    assert_eq!(esc("\"\""), "\\\"\\\"");
}

#[test]
fn decimal_rendering() {
    assert_eq!(dec_u64(0), "0");
    assert_eq!(dec_u64(7), "7");
    assert_eq!(dec_u64(1234), "1234");
    assert_eq!(dec_u64(u64::MAX), "18446744073709551615");
    assert_eq!(dec_u128(340282366920938463463374607431768211455), "340282366920938463463374607431768211455");
}

#[test]
fn centi_rendering_two_decimals() {
    assert_eq!(centi_string(12345), "123.45");
    assert_eq!(centi_string(7), "0.07");
    assert_eq!(centi_string(50), "0.50");
    assert_eq!(centi_string(100), "1.00");
    assert_eq!(centi_string(0), "0.00");
}

#[test]
fn parsing_unsigned_numbers() {
    assert_eq!(parse_u64("123"), Some(123));
    assert_eq!(parse_u64("+7"), Some(7));
    assert_eq!(parse_u64("0"), Some(0));
    assert_eq!(parse_u64(""), None);
    assert_eq!(parse_u64("+"), None);
    assert_eq!(parse_u64("12a"), None);
    assert_eq!(parse_u64("-3"), None);
    assert_eq!(parse_u64("18446744073709551615"), Some(u64::MAX));
    assert_eq!(parse_u64("18446744073709551616"), None);
    assert_eq!(parse_usize("42"), Some(42));
    assert_eq!(parse_usize("abc"), None);
}

#[test]
fn string_helpers() {
    assert!(str_eq("same", "same"));
    assert!(!str_eq("same", "Same"));
    assert!(!str_eq("a", "ab"));
    assert_eq!(join_path("root", "kid"), "root/kid");
}

#[test]
fn meminfo_total_memory() {
    let text = "MemAvailable:   1 kB\nMemTotal:       16384256 kB\nMemFree: 2 kB\n";
    assert_eq!(meminfo_mb(text), 16000); // 16384256 kB rounded down to MB
    assert_eq!(meminfo_mb("MemTotal: 2048 kB"), 2); // no trailing newline
    assert_eq!(meminfo_mb("MemTotal:\t1024 kB\r\nrest\n"), 1); // CRLF line
    assert_eq!(meminfo_mb("MemFree: 5 kB\n"), 0); // field missing
    assert_eq!(meminfo_mb("MemTotal: junk kB\n"), 0); // malformed number
    assert_eq!(meminfo_mb("MemTotal:\n"), 0); // value missing
    assert_eq!(meminfo_mb(""), 0);
}

#[test]
fn timestamp_is_decimal_digits() {
    let t = now();
    assert!(!t.is_empty());
    assert!(t.chars().all(|c| c.is_ascii_digit()));
    // the clock reads a time well after the epoch, not a constant
    let secs: u64 = t.parse().unwrap();
    assert!(secs > 1_000_000_000);
}

#[test]
fn argument_parsing() {
    let args: Vec<String> = vec![
        "--mode", "bench", "--root", "/tmp/x", "--workers", "6", "--fast", "--fmt", "bin",
        "--preset", "hard", "--runs", "0", "--name", "night",
    ]
    .into_iter()
    .map(|s| s.to_string())
    .collect();
    let c = arg(&args);
    assert!(matches!(c.md, Md::Bench));
    assert_eq!(c.root, "/tmp/x");
    assert_eq!(c.wk, Some(6));
    assert!(c.fast);
    assert!(matches!(c.fm, Fm::Bin));
    assert!(matches!(c.ps, Ps::Hard));
    assert_eq!(c.runs, 1); // 0 is floored to 1
    assert_eq!(c.name, "night");
}

#[test]
fn argument_defaults_and_oddities() {
    let c = arg(&vec![]);
    assert!(matches!(c.md, Md::Menu));
    assert_eq!(c.root, "/");
    assert_eq!(c.out, "rust_nator/out");
    assert_eq!(c.wk, None);
    assert!(!c.fast);
    assert!(matches!(c.fm, Fm::Both));
    assert!(matches!(c.ps, Ps::Balanced));
    assert_eq!(c.runs, 1);
    assert_eq!(c.name, "run");

    // a flag missing its value is ignored
    let c2 = arg(&vec!["--mode".to_string()]);
    assert!(matches!(c2.md, Md::Menu));
    // a bad worker count parses to no override
    let c3 = arg(&vec!["--workers".to_string(), "abc".to_string()]);
    assert_eq!(c3.wk, None);
    // unknown tokens are skipped
    let c4 = arg(&vec!["--bogus".to_string(), "--fast".to_string()]);
    assert!(c4.fast);
}

#[test]
fn menu_answers() {
    let base = arg(&vec![]);
    let c = menu_apply(base.clone(), "2", "", "y", "/data/out");
    assert!(matches!(c.md, Md::Bench));
    assert_eq!(c.root, "/"); // empty answer keeps the default
    assert!(c.fast);
    assert_eq!(c.out, "/data/out");
    let c2 = menu_apply(base.clone(), "nope", "/srv", "Y", "");
    assert!(matches!(c2.md, Md::DirMap));
    assert_eq!(c2.root, "/srv");
    assert!(c2.fast);
    assert_eq!(c2.out, "rust_nator/out");
    let c3 = menu_apply(base, "4", "", "n", "");
    assert!(matches!(c3.md, Md::Disk));
    assert!(!c3.fast);
}
