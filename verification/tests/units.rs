use iploc::cache::Cache;
use iploc::ip::{format_ip, is_reserved, parse_ip, parse_ipv4, IpAddress};
use iploc::resolver::{annotate_body, provider_url};

#[test]
fn parses_dotted_decimal() {
    assert_eq!(parse_ip(b"1.2.3.4"), Some(IpAddress::V4(1, 2, 3, 4)));
    assert_eq!(parse_ip(b"0.0.0.0"), Some(IpAddress::V4(0, 0, 0, 0)));
    assert_eq!(parse_ip(b"255.255.255.255"), Some(IpAddress::V4(255, 255, 255, 255)));
    assert_eq!(parse_ipv4(b"8.8.8.8"), Some((8, 8, 8, 8)));
}

#[test]
fn rejects_malformed_ipv4() {
    assert_eq!(parse_ip(b""), None);
    assert_eq!(parse_ip(b"1.2.3"), None);
    assert_eq!(parse_ip(b"1.2.3.4.5"), None);
    assert_eq!(parse_ip(b"256.1.1.1"), None);
    assert_eq!(parse_ip(b"01.2.3.4"), None);
    assert_eq!(parse_ip(b"1.2.3.04"), None);
    assert_eq!(parse_ip(b"1..2.3"), None);
    assert_eq!(parse_ip(b"1.2.3.4."), None);
    assert_eq!(parse_ip(b".1.2.3.4"), None);
    assert_eq!(parse_ip(b" 1.2.3.4"), None);
    assert_eq!(parse_ip(b"1.2.3.4 "), None);
    assert_eq!(parse_ip(b"not-an-ip"), None);
}

#[test]
fn parses_ipv6_forms() {
    assert_eq!(
        parse_ip(b"1:2:3:4:5:6:7:8"),
        Some(IpAddress::V6(1, 2, 3, 4, 5, 6, 7, 8))
    );
    assert_eq!(parse_ip(b"::"), Some(IpAddress::V6(0, 0, 0, 0, 0, 0, 0, 0)));
    assert_eq!(parse_ip(b"::1"), Some(IpAddress::V6(0, 0, 0, 0, 0, 0, 0, 1)));
    assert_eq!(parse_ip(b"1::"), Some(IpAddress::V6(1, 0, 0, 0, 0, 0, 0, 0)));
    assert_eq!(parse_ip(b"1::8"), Some(IpAddress::V6(1, 0, 0, 0, 0, 0, 0, 8)));
    assert_eq!(
        parse_ip(b"2001:db8::ff00:42:8329"),
        Some(IpAddress::V6(0x2001, 0xdb8, 0, 0, 0, 0xff00, 0x42, 0x8329))
    );
    assert_eq!(
        parse_ip(b"ABCD:ef01::"),
        Some(IpAddress::V6(0xabcd, 0xef01, 0, 0, 0, 0, 0, 0))
    );
    assert_eq!(
        parse_ip(b"1:2:3:4:5:6:7::"),
        Some(IpAddress::V6(1, 2, 3, 4, 5, 6, 7, 0))
    );
    assert_eq!(
        parse_ip(b"::1:2:3:4:5:6:7"),
        Some(IpAddress::V6(0, 1, 2, 3, 4, 5, 6, 7))
    );
    assert_eq!(
        parse_ip(b"::ffff:1.2.3.4"),
        Some(IpAddress::V6(0, 0, 0, 0, 0, 0xffff, 0x0102, 0x0304))
    );
    assert_eq!(
        parse_ip(b"1:2:3:4:5:6:1.2.3.4"),
        Some(IpAddress::V6(1, 2, 3, 4, 5, 6, 0x0102, 0x0304))
    );
}

#[test]
fn rejects_malformed_ipv6() {
    assert_eq!(parse_ip(b":"), None);
    assert_eq!(parse_ip(b":::"), None);
    assert_eq!(parse_ip(b":1"), None);
    assert_eq!(parse_ip(b"1:"), None);
    assert_eq!(parse_ip(b"1:2:3:4:5:6:7"), None);
    assert_eq!(parse_ip(b"1:2:3:4:5:6:7:8:9"), None);
    assert_eq!(parse_ip(b"1::2::3"), None);
    assert_eq!(parse_ip(b"::1:2:3:4:5:6:7:8"), None);
    assert_eq!(parse_ip(b"1:2:3:4:5:6:7:8::"), None);
    assert_eq!(parse_ip(b"12345::"), None);
    assert_eq!(parse_ip(b"g::1"), None);
    assert_eq!(parse_ip(b"1:2:3:4:5:6:7:1.2.3.4"), None);
    assert_eq!(parse_ip(b"1.2.3.4::5"), None);
}

#[test]
fn formats_addresses_canonically() {
    assert_eq!(format_ip(IpAddress::V4(1, 2, 3, 4)), b"1.2.3.4".to_vec());
    assert_eq!(format_ip(IpAddress::V4(255, 0, 10, 200)), b"255.0.10.200".to_vec());
    assert_eq!(
        format_ip(IpAddress::V6(0x2001, 0xdb8, 0, 0, 0, 0xff00, 0x42, 0x8329)),
        b"2001:db8:0:0:0:ff00:42:8329".to_vec()
    );
    assert_eq!(
        format_ip(IpAddress::V6(0, 0, 0, 0, 0, 0, 0, 1)),
        b"0:0:0:0:0:0:0:1".to_vec()
    );
}

#[test]
fn format_round_trips_through_parse() {
    let samples = vec![
        IpAddress::V4(8, 8, 8, 8),
        IpAddress::V4(0, 0, 0, 0),
        IpAddress::V6(0, 0, 0, 0, 0, 0, 0, 1),
        IpAddress::V6(0x2001, 0xdb8, 0xffff, 1, 2, 3, 4, 5),
    ];
    for ip in samples {
        let text = format_ip(ip);
        assert_eq!(parse_ip(&text), Some(ip));
    }
}

#[test]
fn reserved_policy_matches_ranges() {
    assert!(is_reserved(IpAddress::V4(127, 0, 0, 1)));
    assert!(is_reserved(IpAddress::V4(10, 1, 2, 3)));
    assert!(is_reserved(IpAddress::V4(172, 16, 0, 1)));
    assert!(is_reserved(IpAddress::V4(172, 31, 255, 255)));
    assert!(!is_reserved(IpAddress::V4(172, 32, 0, 1)));
    assert!(is_reserved(IpAddress::V4(192, 168, 1, 1)));
    assert!(is_reserved(IpAddress::V4(169, 254, 0, 1)));
    assert!(is_reserved(IpAddress::V4(0, 0, 0, 0)));
    assert!(!is_reserved(IpAddress::V4(8, 8, 8, 8)));
    assert!(is_reserved(IpAddress::V6(0, 0, 0, 0, 0, 0, 0, 1)));
    assert!(is_reserved(IpAddress::V6(0, 0, 0, 0, 0, 0, 0, 0)));
    assert!(is_reserved(IpAddress::V6(0xfc00, 0, 0, 0, 0, 0, 0, 1)));
    assert!(is_reserved(IpAddress::V6(0xfe80, 0, 0, 0, 0, 0, 0, 1)));
    assert!(!is_reserved(IpAddress::V6(0x2001, 0xdb8, 0, 0, 0, 0, 0, 1)));
}

#[test]
fn builds_provider_url() {
    let url = provider_url(b"testkey", IpAddress::V4(1, 1, 1, 1));
    assert_eq!(
        url,
        b"https://api.ip2location.io/?key=testkey&ip=1.1.1.1".to_vec()
    );
    let url6 = provider_url(b"k", IpAddress::V6(0, 0, 0, 0, 0, 0, 0, 1));
    assert_eq!(
        url6,
        b"https://api.ip2location.io/?key=k&ip=0:0:0:0:0:0:0:1".to_vec()
    );
}

#[test]
fn annotation_splices_marker() {
    assert_eq!(
        annotate_body(&b"{\"a\":1}".to_vec()),
        b"{\"cached\":true,\"a\":1}".to_vec()
    );
    assert_eq!(annotate_body(&b"{}".to_vec()), b"{\"cached\":true}".to_vec());
    // A body that does not open a JSON object is passed through unchanged.
    assert_eq!(annotate_body(&b"plain".to_vec()), b"plain".to_vec());
    assert_eq!(annotate_body(&b"".to_vec()), b"".to_vec());
}

#[test]
fn cache_lookup_respects_expiry() {
    let mut c = Cache::new();
    let ip = IpAddress::V4(1, 2, 3, 4);
    c.store(ip, b"payload".to_vec(), 50);
    assert_eq!(c.lookup(ip, 49), Some(b"payload".to_vec()));
    // Still present: lookups before expiry do not disturb the entry.
    assert_eq!(c.lookup(ip, 0), Some(b"payload".to_vec()));
    // At the expiry time the entry is stale, evicted on sight.
    assert_eq!(c.lookup(ip, 50), None);
    // Evicted for good: even an early clock finds nothing.
    assert_eq!(c.lookup(ip, 0), None);
}

#[test]
fn cache_store_overwrites_entry() {
    let mut c = Cache::new();
    let ip = IpAddress::V6(0, 0, 0, 0, 0, 0, 0, 1);
    let other = IpAddress::V4(9, 9, 9, 9);
    c.store(ip, b"one".to_vec(), 100);
    c.store(other, b"two".to_vec(), 100);
    c.store(ip, b"three".to_vec(), 200);
    assert_eq!(c.lookup(ip, 150), Some(b"three".to_vec()));
    assert_eq!(c.lookup(other, 50), Some(b"two".to_vec()));
    assert_eq!(c.lookup(IpAddress::V4(1, 1, 1, 1), 0), None);
}
