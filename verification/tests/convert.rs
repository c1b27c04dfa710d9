//! End-to-end tests of `convert`: scripts in, joined CIDR lists out.

use netcalc::convert;
use netcalc::errors::Error;
use netcalc::family::Family;
use netcalc::script::{parse_cidr, parse_range};
use netcalc::text::to_chars;

#[test]
fn single_host() {
    assert_eq!(convert("4", "\n", "+10.0.0.1").unwrap(), "10.0.0.1/32");
}

#[test]
fn merge_two_halves() {
    assert_eq!(
        convert("4", "\n", "+10.0.0.0/25\n+10.0.0.128/25").unwrap(),
        "10.0.0.0/24"
    );
}

#[test]
fn hole() {
    assert_eq!(
        convert("4", "\n", "+10.0.0.0/24\n-10.0.0.128/25").unwrap(),
        "10.0.0.0/25"
    );
}

#[test]
fn range_to_cidrs() {
    assert_eq!(
        convert("4", "\n", "+10.0.0.1-10.0.0.6").unwrap(),
        "10.0.0.1/32\n10.0.0.2/31\n10.0.0.4/31\n10.0.0.6/32"
    );
}

#[test]
fn comments_and_blanks() {
    assert_eq!(
        convert("4", "\n", "# comment\n\n+192.168.0.0/16\n-192.168.1.0/24").unwrap(),
        "192.168.0.0/24\n192.168.2.0/23\n192.168.4.0/22\n192.168.8.0/21\n\
         192.168.16.0/20\n192.168.32.0/19\n192.168.64.0/18\n192.168.128.0/17"
    );
}

#[test]
fn idempotent_add() {
    assert_eq!(convert("4", "\n", "+10.0.0.0/8\n+10.0.0.0/8").unwrap(), "10.0.0.0/8");
}

#[test]
fn custom_separator() {
    assert_eq!(
        convert("4", ",", "+10.0.0.1-10.0.0.2").unwrap(),
        "10.0.0.1/32,10.0.0.2/32"
    );
}

#[test]
fn empty_script_yields_empty_output() {
    assert_eq!(convert("4", "\n", "").unwrap(), "");
    assert_eq!(convert("4", "\n", "# nothing\n\n").unwrap(), "");
}

#[test]
fn whitespace_is_trimmed() {
    assert_eq!(convert("4", "\n", "  +10.0.0.1 \r").unwrap(), "10.0.0.1/32");
}

#[test]
fn cidr_normalizes_host_bits() {
    assert_eq!(convert("4", "\n", "+10.1.2.3/16").unwrap(), "10.1.0.0/16");
}

#[test]
fn everything_and_nothing() {
    assert_eq!(convert("4", "\n", "+0.0.0.0/0").unwrap(), "0.0.0.0/0");
    assert_eq!(convert("4", "\n", "+0.0.0.0/0\n-0.0.0.0/0").unwrap(), "");
}

#[test]
fn unknown_version_is_rejected() {
    assert_eq!(convert("5", "\n", "+10.0.0.1"), Err(Error::UnknownVersion));
    assert_eq!(convert("", "\n", ""), Err(Error::UnknownVersion));
    assert_eq!(convert("44", "\n", ""), Err(Error::UnknownVersion));
}

#[test]
fn unrecognized_line_is_fatal() {
    assert_eq!(
        convert("4", "\n", "+10.0.0.1\noops"),
        Err(Error::UnrecognizedLine(String::from("oops")))
    );
    // The offending line is reported trimmed.
    assert_eq!(
        convert("4", "\n", "  what is this  "),
        Err(Error::UnrecognizedLine(String::from("what is this")))
    );
}

#[test]
fn bad_operand_reports_malformed_range() {
    // No address, no CIDR, and no `-`, so the last attempt's error stands.
    assert_eq!(convert("4", "\n", "+banana"), Err(Error::MalformedRange));
}

#[test]
fn bad_range_side_reports_malformed_address() {
    assert_eq!(convert("4", "\n", "+10.0.0.1-banana"), Err(Error::MalformedAddress));
}

#[test]
fn too_long_prefix_is_rejected() {
    // The operand chain tries address, CIDR, then range; when the CIDR's
    // length is over the width the final (range) attempt's error stands.
    assert!(convert("4", "\n", "+10.0.0.0/33").is_err());
    assert_eq!(convert("4", "\n", "+10.0.0.0/33"), Err(Error::MalformedRange));
    assert!(convert("6", "\n", "+::/129").is_err());
}

#[test]
fn inverted_range_is_rejected() {
    assert_eq!(convert("4", "\n", "+10.0.0.6-10.0.0.1"), Err(Error::RangeInverted));
}

#[test]
fn leading_zero_octets_are_rejected() {
    assert_eq!(convert("4", "\n", "+010.0.0.1"), Err(Error::MalformedRange));
}

#[test]
fn error_messages_are_text() {
    assert_eq!(
        Error::RangeInverted.message(),
        "In a range, start must be <= end"
    );
    assert_eq!(Error::UnknownVersion.message(), "Unrecognized version");
    // An unrecognized line's message includes the offending line.
    assert_eq!(
        Error::UnrecognizedLine(String::from("what is this")).message(),
        "Unrecognized line: what is this"
    );
}

#[test]
fn v6_single_host() {
    assert_eq!(convert("6", "\n", "+::1").unwrap(), "::1/128");
}

#[test]
fn v6_block_roundtrip() {
    assert_eq!(convert("6", "\n", "+2001:db8::/32").unwrap(), "2001:db8::/32");
    assert_eq!(
        convert("6", "\n", "+2001:0db8:0000:0000:0000:0000:0000:0001").unwrap(),
        "2001:db8::1/128"
    );
}

#[test]
fn v6_no_compression_of_single_zero() {
    assert_eq!(
        convert("6", "\n", "+1:0:1:1:1:1:1:1").unwrap(),
        "1:0:1:1:1:1:1:1/128"
    );
}

#[test]
fn v6_leftmost_longest_run_compressed() {
    assert_eq!(
        convert("6", "\n", "+1:0:0:1:0:0:0:1").unwrap(),
        "1:0:0:1::1/128"
    );
}

#[test]
fn v6_trailing_compression() {
    assert_eq!(convert("6", "\n", "+1::").unwrap(), "1::/128");
    assert_eq!(convert("6", "\n", "+::/0").unwrap(), "::/0");
}

#[test]
fn v6_merge_two_halves() {
    assert_eq!(
        convert("6", "\n", "+8000::/2\n+c000::/2").unwrap(),
        "8000::/1"
    );
}

#[test]
fn v6_malformed_addresses() {
    assert_eq!(convert("6", "\n", "+1:2:3"), Err(Error::MalformedRange));
    assert_eq!(convert("6", "\n", "+1::2::3"), Err(Error::MalformedRange));
    assert_eq!(convert("6", "\n", "+:::"), Err(Error::MalformedRange));
    assert_eq!(convert("6", "\n", "+12345::"), Err(Error::MalformedRange));
}

#[test]
fn v6_embedded_ipv4_tail() {
    // An embedded dotted-quad tail stands for the last two groups; the
    // output is always plain colon-hex.
    assert_eq!(
        convert("6", "\n", "+::ffff:1.2.3.4").unwrap(),
        "::ffff:102:304/128"
    );
    assert_eq!(
        convert("6", "\n", "+64:ff9b::0.0.0.1").unwrap(),
        "64:ff9b::1/128"
    );
    assert_eq!(
        convert("6", "\n", "+1:2:3:4:5:6:1.2.3.4").unwrap(),
        "1:2:3:4:5:6:102:304/128"
    );
    assert_eq!(convert("6", "\n", "+::1.2.3.4.5"), Err(Error::MalformedRange));
    assert_eq!(convert("6", "\n", "+1.2.3.4::"), Err(Error::MalformedRange));
}

#[test]
fn v6_range() {
    assert_eq!(
        convert("6", "\n", "+::1-::2").unwrap(),
        "::1/128\n::2/128"
    );
}

#[test]
fn cidr_parse_reports_its_own_errors() {
    assert_eq!(
        parse_cidr(Family::V4, &to_chars("10.0.0.0/33")),
        Err(Error::PrefixTooLong)
    );
    assert_eq!(
        parse_cidr(Family::V6, &to_chars("::/129")),
        Err(Error::PrefixTooLong)
    );
    assert_eq!(
        parse_cidr(Family::V4, &to_chars("10.0.0.0")),
        Err(Error::MalformedCidr)
    );
    assert_eq!(
        parse_cidr(Family::V4, &to_chars("10.0.0.0/8/9")),
        Err(Error::MalformedCidr)
    );
    assert_eq!(
        parse_cidr(Family::V4, &to_chars("banana/8")),
        Err(Error::MalformedAddress)
    );
    let ok = parse_cidr(Family::V4, &to_chars("10.0.0.0/8")).unwrap();
    assert_eq!(ok.len(), 8);
    assert_eq!(
        parse_range(Family::V4, &to_chars("10.0.0.1")),
        Err(Error::MalformedRange)
    );
}

#[test]
fn zero_length_cidr_covers_everything() {
    assert_eq!(convert("4", "\n", "+1.2.3.4/0").unwrap(), "0.0.0.0/0");
}

#[test]
fn highest_host() {
    assert_eq!(
        convert("4", "\n", "+255.255.255.255").unwrap(),
        "255.255.255.255/32"
    );
}

#[test]
fn delete_from_empty_set() {
    assert_eq!(convert("4", "\n", "-10.0.0.1").unwrap(), "");
}

#[test]
fn comment_without_space() {
    assert_eq!(convert("4", "\n", "#comment\n+10.0.0.1").unwrap(), "10.0.0.1/32");
}

#[test]
fn bare_sign_is_rejected() {
    assert_eq!(convert("4", "\n", "+"), Err(Error::MalformedRange));
    assert_eq!(convert("4", "\n", "-"), Err(Error::MalformedRange));
}

#[test]
fn spaces_inside_an_address_are_rejected() {
    assert_eq!(convert("4", "\n", "+10. 0.0.1"), Err(Error::MalformedRange));
}

#[test]
fn add_overrides_earlier_delete() {
    assert_eq!(
        convert("4", "\n", "+10.0.0.0/24\n-10.0.0.0/25\n+10.0.0.0/24").unwrap(),
        "10.0.0.0/24"
    );
}
