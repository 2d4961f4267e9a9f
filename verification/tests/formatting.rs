use quantum_torrent::calendar::epoch_to_date;
use quantum_torrent::encoding::{encode, urlencode, urlencoding_path};
use quantum_torrent::units::{format_size, Units};

#[test]
fn sizes_in_binary_units() {
    assert_eq!(format_size(0, Units::Binary), "0 B");
    assert_eq!(format_size(1023, Units::Binary), "1023 B");
    assert_eq!(format_size(1024, Units::Binary), "1.0 KiB");
    assert_eq!(format_size(1536, Units::Binary), "1.5 KiB");
    assert_eq!(format_size(1_048_576, Units::Binary), "1.0 MiB");
    assert_eq!(format_size(1_073_741_824, Units::Binary), "1.00 GiB");
    assert_eq!(format_size(1_649_267_441_664, Units::Binary), "1.50 TiB");
}

#[test]
fn rounding_steps_up_to_the_next_unit() {
    // 1048575 bytes is 1023.999 KiB: shown as a whole MiB, never "1024.0 KiB".
    assert_eq!(format_size(1_048_575, Units::Binary), "1.0 MiB");
    assert_eq!(format_size(999_999, Units::Decimal), "1.0 MB");
}

#[test]
fn sizes_in_decimal_units() {
    assert_eq!(format_size(999, Units::Decimal), "999 B");
    assert_eq!(format_size(1000, Units::Decimal), "1.0 KB");
    assert_eq!(format_size(2_500_000, Units::Decimal), "2.5 MB");
    assert_eq!(format_size(3_000_000_000, Units::Decimal), "3.00 GB");
}

#[test]
fn decimal_units_round_the_binary64_quotient() {
    // 1050 / 1000 is the double just above 1.05, which prints as 1.1.
    assert_eq!(format_size(1050, Units::Decimal), "1.1 KB");
    assert_eq!(format_size(1_050_000, Units::Decimal), "1.1 MB");
    assert_eq!(format_size(1_500_000_000_000, Units::Decimal), "1.50 TB");
}

#[test]
fn largest_unit_takes_everything_above() {
    assert_eq!(format_size(u64::MAX, Units::Binary), "16777216.00 TiB");
}

#[test]
fn unit_scale() {
    let (k, names) = Units::Binary.scale();
    assert_eq!(k, 1024);
    assert_eq!(names, ["B", "KiB", "MiB", "GiB", "TiB"]);
    let (k, names) = Units::Decimal.scale();
    assert_eq!(k, 1000);
    assert_eq!(names, ["B", "KB", "MB", "GB", "TB"]);
    assert_eq!(Units::default(), Units::Binary);
}

#[test]
fn dates_from_epoch_seconds() {
    assert_eq!(epoch_to_date(0), "1970-01-01");
    assert_eq!(epoch_to_date(86_399), "1970-01-01");
    assert_eq!(epoch_to_date(86_400), "1970-01-02");
    assert_eq!(epoch_to_date(951_782_400), "2000-02-29");
    assert_eq!(epoch_to_date(1_700_000_000), "2023-11-14");
    assert_eq!(epoch_to_date(1_709_164_800), "2024-02-29");
}

#[test]
fn form_encoding_of_search_terms() {
    assert_eq!(encode("a b&c"), "a+b%26c");
    assert_eq!(encode("ubuntu-22.04_x~"), "ubuntu-22.04_x~");
    assert_eq!(encode("é"), "%C3%A9");
}

#[test]
fn percent_encoding_of_magnet_parameters() {
    assert_eq!(urlencode("a b"), "a%20b");
    assert_eq!(urlencode("udp://t:80/announce"), "udp%3A%2F%2Ft%3A80%2Fannounce");
    assert_eq!(urlencoding_path("my file.mkv"), "my%20file.mkv");
    assert_eq!(urlencoding_path("a+b"), "a%2Bb");
}

fn percent_decode(s: &str, plus_is_space: bool) -> Vec<u8> {
    let b = s.as_bytes();
    let mut out = Vec::new();
    let mut i = 0;
    while i < b.len() {
        if b[i] == b'%' {
            out.push(u8::from_str_radix(&s[i + 1..i + 3], 16).unwrap());
            i += 3;
        } else if b[i] == b'+' && plus_is_space {
            out.push(b' ');
            i += 1;
        } else {
            out.push(b[i]);
            i += 1;
        }
    }
    out
}

#[test]
fn escaping_round_trips() {
    for s in ["", "plain", "a b+c&d=e/f?g#h", "日本語 ✓", "100%"] {
        assert_eq!(percent_decode(&urlencode(s), false), s.as_bytes());
        assert_eq!(percent_decode(&encode(s), true), s.as_bytes());
    }
}

#[test]
fn escaped_text_is_path_safe() {
    let e = urlencoding_path("a/b c?d#e%f\u{7f}é");
    assert!(e.bytes().all(|b| b.is_ascii_alphanumeric() || b"-_.~%".contains(&b)));
    assert_eq!(e, "a%2Fb%20c%3Fd%23e%25f%7F%C3%A9");
}
