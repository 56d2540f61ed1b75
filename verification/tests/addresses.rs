use webscraper::addresses::ipv4_to_string;
use webscraper::addresses::parse_ipv4;
use webscraper::addresses::AddressRange;
use webscraper::addresses::TraversalOrder;

#[test]
fn parse_accepts_dotted_quads() {
    assert_eq!(parse_ipv4("10.0.0.1"), Some(10 * 16777216 + 1));
    assert_eq!(parse_ipv4("0.0.0.0"), Some(0));
    assert_eq!(parse_ipv4("255.255.255.255"), Some(u32::MAX));
    assert_eq!(
        parse_ipv4("128.65.209.28"),
        Some(128 * 16777216 + 65 * 65536 + 209 * 256 + 28)
    );
}

#[test]
fn parse_rejects_malformed_text() {
    assert_eq!(parse_ipv4(""), None);
    assert_eq!(parse_ipv4("10.0.0"), None);
    assert_eq!(parse_ipv4("10.0.0.0.1"), None);
    assert_eq!(parse_ipv4("256.0.0.1"), None);
    assert_eq!(parse_ipv4("01.2.3.4"), None);
    assert_eq!(parse_ipv4("1.2.3.x"), None);
    assert_eq!(parse_ipv4("1..2.3"), None);
    assert_eq!(parse_ipv4("1.2.3.4 "), None);
}

#[test]
fn rendering_is_canonical() {
    assert_eq!(ipv4_to_string(0), "0.0.0.0");
    assert_eq!(ipv4_to_string(u32::MAX), "255.255.255.255");
    assert_eq!(ipv4_to_string(10 * 16777216 + 1), "10.0.0.1");
    assert_eq!(
        ipv4_to_string(128 * 16777216 + 65 * 65536 + 209 * 256 + 28),
        "128.65.209.28"
    );
}

#[test]
fn parse_and_render_roundtrip() {
    for text in ["10.0.0.1", "128.65.209.40", "255.0.255.9"] {
        let value = parse_ipv4(text).expect("a well-formed literal");
        assert_eq!(ipv4_to_string(value), text);
    }
}

#[test]
fn enumeration_covers_the_whole_range_once() {
    let start = parse_ipv4("10.0.0.250").unwrap();
    let end = parse_ipv4("10.0.1.5").unwrap();
    let range = AddressRange { start, end };
    let addrs = range.enumerate();
    assert_eq!(addrs.len() as u32, end - start + 1);
    for (i, a) in addrs.iter().enumerate() {
        assert_eq!(*a, start + i as u32);
    }
    let mut sorted = addrs.clone();
    sorted.dedup();
    assert_eq!(sorted.len(), addrs.len());
}

#[test]
fn empty_range_enumerates_nothing() {
    let range = AddressRange { start: 5, end: 4 };
    assert_eq!(range.enumerate().len(), 0);
    assert_eq!(range.addresses(TraversalOrder::Shuffled).len(), 0);
}

#[test]
fn shuffled_traversal_is_a_permutation() {
    let range = AddressRange { start: 1000, end: 1063 };
    let sequential = range.addresses(TraversalOrder::Sequential);
    let mut shuffled = range.addresses(TraversalOrder::Shuffled);
    assert_eq!(shuffled.len(), sequential.len());
    shuffled.sort();
    assert_eq!(shuffled, sequential);
}

#[test]
fn single_address_range_has_one_target() {
    let a = parse_ipv4("10.0.0.1").unwrap();
    let range = AddressRange { start: a, end: a };
    assert_eq!(range.addresses(TraversalOrder::Sequential), vec![a]);
    assert_eq!(range.addresses(TraversalOrder::Shuffled), vec![a]);
}
