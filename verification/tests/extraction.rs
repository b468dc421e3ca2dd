//! Tests for the extractor: leftmost IPv4-shaped token per line.

use toip::extract;

fn b(s: &str) -> Vec<u8> {
    s.as_bytes().to_vec()
}

#[test]
fn extract_timestamp_line() {
    assert_eq!(extract(&b("2024-01-01 10.0.0.5 connected")), Some(b("10.0.0.5")));
}

#[test]
fn extract_no_address() {
    assert_eq!(extract(&b("no address here")), None);
}

#[test]
fn extract_empty_line() {
    assert_eq!(extract(&b("")), None);
}

#[test]
fn extract_unvalidated_octets() {
    assert_eq!(extract(&b("from 999.999.999.999 denied")), Some(b("999.999.999.999")));
}

#[test]
fn extract_first_match_only() {
    assert_eq!(extract(&b("1.2.3.4 forwarded to 5.6.7.8")), Some(b("1.2.3.4")));
}

#[test]
fn extract_embedded_sequence() {
    assert_eq!(extract(&b("release 1.2.3.4.5 deployed")), Some(b("1.2.3.4")));
}

#[test]
fn extract_skips_long_digit_runs() {
    assert_eq!(extract(&b("12345.1.2.3.4")), Some(b("345.1.2.3")));
}

#[test]
fn extract_greedy_final_octet() {
    assert_eq!(extract(&b("host 1.1.1.11 up")), Some(b("1.1.1.11")));
}

#[test]
fn extract_partial_shapes_rejected() {
    assert_eq!(extract(&b("1.2.3")), None);
    assert_eq!(extract(&b("1..2.3.4")), None);
    assert_eq!(extract(&b("a.b.c.d")), None);
}

#[test]
fn extract_matches_reference_regex() {
    let pattern = regex::Regex::new(r"(\d{1,3}\.){3}\d{1,3}").unwrap();
    let lines = [
        "2024-01-01 10.0.0.5 connected",
        "no address here",
        "",
        "from 999.999.999.999 denied",
        "1.2.3.4 forwarded to 5.6.7.8",
        "release 1.2.3.4.5 deployed",
        "12345.1.2.3.4",
        "host 1.1.1.11 up",
        "1.2.3",
        "1..2.3.4",
        "x 0.0.0.0:8080 y",
        "ends with 8.8.8.8",
        "dot.1.2.3.4.dot",
        "85.255.124.160 - - [01/Jan/2024]",
    ];
    for line in lines.iter() {
        let expected = pattern.find(line).map(|m| m.as_str().as_bytes().to_vec());
        assert_eq!(extract(&b(line)), expected, "line: {:?}", line);
    }
}
