use fluqsr::commands::{offer_response, parse_target, require_selection, selection_total};
use fluqsr::discovery::{IpAddress, DEFAULT_TRANSFER_PORT};
use fluqsr::error::Error;
use fluqsr::transfer::{FileEntry, OfferDecision};

const LOCAL_V6: IpAddress = IpAddress::V6([0, 0, 0, 0, 0, 0, 0, 1]);

/// What the standard library's address parsers make of the trimmed text, for
/// the inputs these tests use.
fn parse(input: &str) -> Result<(IpAddress, u16), Error> {
    let (socket, ip) = match input.trim() {
        "192.168.1.42" => (None, Some(IpAddress::V4([192, 168, 1, 42]))),
        "192.168.1.42:9000" => (Some((IpAddress::V4([192, 168, 1, 42]), 9000)), None),
        "[::1]:47654" => (Some((LOCAL_V6, 47654)), None),
        "::1" => (None, Some(LOCAL_V6)),
        _ => (None, None),
    };
    parse_target(input, socket, ip)
}

#[test]
fn a_bare_ip_gets_the_default_port() {
    let (ip, port) = parse("192.168.1.42").unwrap();
    assert_eq!(ip, IpAddress::V4([192, 168, 1, 42]));
    assert_eq!(port, DEFAULT_TRANSFER_PORT);
}

#[test]
fn an_explicit_port_is_honoured() {
    assert_eq!(parse("192.168.1.42:9000").unwrap().1, 9000);
}

#[test]
fn surrounding_whitespace_is_tolerated() {
    assert!(parse("  192.168.1.42  ").is_ok());
}

#[test]
fn ipv6_is_accepted() {
    assert!(parse("[::1]:47654").is_ok());
    assert!(parse("::1").is_ok());
}

#[test]
fn nonsense_is_rejected_with_a_usable_message() {
    for bad in ["", "   ", "not an address", "999.999.999.999"] {
        let err = parse(bad).unwrap_err().message();
        assert!(!err.is_empty(), "{bad} should produce an error");
    }
    assert!(matches!(parse("  "), Err(Error::Other(m)) if m == "enter an address"));
    assert!(matches!(
        parse(" nope "),
        Err(Error::Other(m)) if m == "nope is not a valid address. Use an IP like 192.168.1.42, optionally with a port: 192.168.1.42:47654"
    ));
}

#[test]
fn declining_an_offer_says_so() {
    assert!(matches!(offer_response(true), OfferDecision::Accept));
    assert!(matches!(
        offer_response(false),
        OfferDecision::Decline(Some(m)) if m == "declined on the other device"
    ));
}

#[test]
fn an_empty_selection_cannot_be_sent() {
    assert!(matches!(
        require_selection(0),
        Err(Error::Other(m)) if m == "no files were selected"
    ));
    assert!(require_selection(2).is_ok());
    assert!(matches!(
        selection_total(&Vec::new()),
        Err(Error::Other(m)) if m == "the selection contained no files to send"
    ));
}

#[test]
fn the_total_is_the_sum_of_the_sizes() {
    let files = vec![
        FileEntry { index: 0, source: "/a".into(), relative: "a".into(), size: 3 },
        FileEntry { index: 1, source: "/b".into(), relative: "b".into(), size: 4 },
    ];
    assert_eq!(selection_total(&files).unwrap(), 7);
    let huge = vec![
        FileEntry { index: 0, source: "/a".into(), relative: "a".into(), size: u64::MAX },
        FileEntry { index: 1, source: "/b".into(), relative: "b".into(), size: 1 },
    ];
    assert!(selection_total(&huge).is_err());
}
