use instrument::page_faults::{parse_fault_count, parse_page_size};

fn report(heading: &str, value: &str) -> Vec<u8> {
    let mut text = String::new();
    for i in 0..11 {
        text.push_str(&format!("header line {i}: Processes: 512 total\n"));
    }
    text.push_str(heading);
    text.push('\n');
    text.push_str(value);
    text.push('\n');
    text.into_bytes()
}

#[test]
fn fault_count_under_heading() {
    assert_eq!(parse_fault_count(&report("FAULTS", "1234")), Some(1234));
    assert_eq!(parse_fault_count(&report("  FAULTS \r", "\t 98765  \r")), Some(98765));
    assert_eq!(parse_fault_count(&report("FAULTS", "+7")), Some(7));
}

#[test]
fn fault_count_without_trailing_newline() {
    let mut bytes = report("FAULTS", "42");
    bytes.pop();
    assert_eq!(parse_fault_count(&bytes), Some(42));
}

#[test]
fn fault_report_of_another_shape() {
    assert_eq!(parse_fault_count(&report("PID", "1234")), None);
    assert_eq!(parse_fault_count(&report("FAULTS", "12a")), None);
    assert_eq!(parse_fault_count(&report("FAULTS", "")), None);
    assert_eq!(parse_fault_count(&report("FAULTS", "-3")), None);
    assert_eq!(parse_fault_count(&report("FAULTS", "18446744073709551616")), None);
    assert_eq!(parse_fault_count(b"FAULTS\n12\n"), None);
    assert_eq!(parse_fault_count(b""), None);
}

#[test]
fn fault_count_at_the_limit() {
    assert_eq!(
        parse_fault_count(&report("FAULTS", "18446744073709551615")),
        Some(u64::MAX)
    );
}

#[test]
fn page_size_output() {
    assert_eq!(parse_page_size(b"16384\n"), Some(16384));
    assert_eq!(parse_page_size(b"  4096  "), Some(4096));
    assert_eq!(parse_page_size(b"page"), None);
    assert_eq!(parse_page_size(b"\n"), None);
    assert_eq!(parse_page_size(b"0\n"), None);
    assert_eq!(parse_page_size(b" 00 "), None);
}

#[test]
fn unicode_whitespace_around_heading_and_count() {
    assert_eq!(parse_fault_count(&report("\u{a0}FAULTS", "42")), Some(42));
    assert_eq!(parse_fault_count(&report("\u{3000}FAULTS\u{2028}", "\u{85}17\u{2009}")), Some(17));
    assert_eq!(parse_fault_count(&report("\u{1680}\u{205f}FAULTS\u{202f}", "\u{200a}8")), Some(8));
    assert_eq!(parse_page_size("\u{a0}16384\u{a0}\n".as_bytes()), Some(16384));
}

#[test]
fn other_characters_are_not_trimmed() {
    assert_eq!(parse_fault_count(&report("\u{200b}FAULTS", "42")), None);
    assert_eq!(parse_fault_count(&report("FAULTS", "42\u{e9}")), None);
}

#[test]
fn trimming_agrees_with_str_trim() {
    let samples = [
        "\u{a0}FAULTS",
        "\u{2000}\u{2001}FAULTS\u{2002}\u{2003}",
        "\u{85}\t FAULTS \u{3000}",
        "\u{2028}\u{2029}FAULTS\u{200a}",
    ];
    for key in samples {
        assert_eq!(key.trim(), "FAULTS");
        assert_eq!(parse_fault_count(&report(key, "5")), Some(5));
    }
}
