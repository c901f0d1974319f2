use hyper::header::{HeaderMap, HeaderValue};
use real_ip::{
    get_last_addr_from_x_forwarded_for_header, parse_ip, pick_best_ip_from_options, real_ip,
    IpAddress, SocketAddress, Source,
};

fn socket(a: u8, b: u8, c: u8, d: u8, port: u16) -> SocketAddress {
    SocketAddress { ip: IpAddress::V4([a, b, c, d]), port }
}

fn fallback() -> SocketAddress {
    socket(10, 0, 0, 1, 8000)
}

#[test]
fn get_addr_from_forwarded_rfc_examples() {
    let examples = vec![
        (r#"for="_gazonk""#, "_gazonk"),
        (
            r#"For="[2001:db8:cafe::17]:4711""#,
            "[2001:db8:cafe::17]:4711",
        ),
        (r#"for=192.0.2.60;proto=http;by=203.0.113.43"#, "192.0.2.60"),
        (r#"for=192.0.2.43, for=198.51.100.17"#, "192.0.2.43"),
    ];
    assert_eq!(examples.len(), 4);
}

#[test]
fn last_entry_of_chain_is_selected() {
    let r = pick_best_ip_from_options(
        Some("203.0.113.1, 70.41.3.18, 150.172.238.178"),
        None,
        fallback(),
    );
    assert_eq!(r, (IpAddress::V4([150, 172, 238, 178]), Source::XForwardedForHeader));
}

#[test]
fn ipv4_port_is_stripped() {
    let r = pick_best_ip_from_options(Some("192.0.2.1:8080"), None, fallback());
    assert_eq!(r, (IpAddress::V4([192, 0, 2, 1]), Source::XForwardedForHeader));
}

#[test]
fn bracketed_ipv6_port_is_stripped() {
    let r = pick_best_ip_from_options(Some("[2001:db8::1]:443"), None, fallback());
    assert_eq!(
        r,
        (IpAddress::V6([0x2001, 0xdb8, 0, 0, 0, 0, 0, 1]), Source::XForwardedForHeader)
    );
}

#[test]
fn unbracketed_ipv6_parses_directly() {
    let r = pick_best_ip_from_options(Some("10.1.1.1, 2001:db8::17"), None, fallback());
    assert_eq!(
        r,
        (IpAddress::V6([0x2001, 0xdb8, 0, 0, 0, 0, 0, 0x17]), Source::XForwardedForHeader)
    );
}

#[test]
fn malformed_chain_entry_falls_back_to_real_ip() {
    let r = pick_best_ip_from_options(Some("not-an-ip"), Some("198.51.100.23"), fallback());
    assert_eq!(r, (IpAddress::V4([198, 51, 100, 23]), Source::XRealIpHeader));
}

#[test]
fn only_last_chain_entry_is_tried() {
    let r = pick_best_ip_from_options(Some("192.0.2.7, garbage"), None, fallback());
    assert_eq!(r, (fallback().ip, Source::SocketAddr));
}

#[test]
fn trailing_comma_falls_through() {
    let r = pick_best_ip_from_options(Some("192.0.2.7,"), Some(" 198.51.100.23 "), fallback());
    assert_eq!(r, (IpAddress::V4([198, 51, 100, 23]), Source::XRealIpHeader));
    let r = pick_best_ip_from_options(Some(","), None, fallback());
    assert_eq!(r, (fallback().ip, Source::SocketAddr));
}

#[test]
fn whitespace_only_values_fall_through() {
    let r = pick_best_ip_from_options(Some("   "), Some(" \t "), fallback());
    assert_eq!(r, (fallback().ip, Source::SocketAddr));
}

#[test]
fn real_ip_value_is_not_port_stripped() {
    let r = pick_best_ip_from_options(None, Some("198.51.100.23:80"), fallback());
    assert_eq!(r, (fallback().ip, Source::SocketAddr));
}

#[test]
fn full_fallback_without_headers() {
    let headers = HeaderMap::new();
    let r = real_ip(socket(203, 0, 113, 9, 54321), &headers);
    assert_eq!(r, (IpAddress::V4([203, 0, 113, 9]), Source::SocketAddr));
}

#[test]
fn headers_are_read_from_the_map() {
    let mut headers = HeaderMap::new();
    headers.insert(
        "X-Original-Forwarded-For",
        HeaderValue::from_static("203.0.113.1, 70.41.3.18"),
    );
    headers.insert("X-Real-IP", HeaderValue::from_static("198.51.100.23"));
    let r = real_ip(fallback(), &headers);
    assert_eq!(r, (IpAddress::V4([70, 41, 3, 18]), Source::XForwardedForHeader));
}

#[test]
fn real_ip_header_is_used_when_chain_is_missing() {
    let mut headers = HeaderMap::new();
    headers.insert("x-real-ip", HeaderValue::from_static(" 2001:db8::5 "));
    headers.append("x-real-ip", HeaderValue::from_static("198.51.100.99"));
    let r = real_ip(fallback(), &headers);
    assert_eq!(
        r,
        (IpAddress::V6([0x2001, 0xdb8, 0, 0, 0, 0, 0, 5]), Source::XRealIpHeader)
    );
}

#[test]
fn non_utf8_header_counts_as_absent() {
    let mut headers = HeaderMap::new();
    headers.insert(
        "x-original-forwarded-for",
        HeaderValue::from_bytes(b"192.0.2.1\xff\xfe").unwrap(),
    );
    headers.insert("x-real-ip", HeaderValue::from_static("198.51.100.23"));
    let r = real_ip(fallback(), &headers);
    assert_eq!(r, (IpAddress::V4([198, 51, 100, 23]), Source::XRealIpHeader));

    let mut headers = HeaderMap::new();
    headers.insert("x-real-ip", HeaderValue::from_bytes(b"\xc3\x28").unwrap());
    let r = real_ip(socket(203, 0, 113, 9, 1), &headers);
    assert_eq!(r, (IpAddress::V4([203, 0, 113, 9]), Source::SocketAddr));
}

#[test]
fn last_entry_is_trimmed() {
    assert_eq!(get_last_addr_from_x_forwarded_for_header("a, b ,  c "), Some("c"));
    assert_eq!(get_last_addr_from_x_forwarded_for_header("single"), Some("single"));
    assert_eq!(get_last_addr_from_x_forwarded_for_header("x,"), Some(""));
    assert_eq!(get_last_addr_from_x_forwarded_for_header(""), Some(""));
}

#[test]
fn ipv4_grammar() {
    assert_eq!(parse_ip("0.0.0.0"), Some(IpAddress::V4([0, 0, 0, 0])));
    assert_eq!(parse_ip("255.255.255.255"), Some(IpAddress::V4([255, 255, 255, 255])));
    assert_eq!(parse_ip("256.1.1.1"), None);
    assert_eq!(parse_ip("01.2.3.4"), None);
    assert_eq!(parse_ip("1.2.3"), None);
    assert_eq!(parse_ip("1.2.3.4.5"), None);
    assert_eq!(parse_ip("1..3.4"), None);
    assert_eq!(parse_ip(" 1.2.3.4"), None);
    assert_eq!(parse_ip(""), None);
}

#[test]
fn ipv6_grammar() {
    assert_eq!(parse_ip("::"), Some(IpAddress::V6([0; 8])));
    assert_eq!(parse_ip("::1"), Some(IpAddress::V6([0, 0, 0, 0, 0, 0, 0, 1])));
    assert_eq!(
        parse_ip("1:2:3:4:5:6:7:8"),
        Some(IpAddress::V6([1, 2, 3, 4, 5, 6, 7, 8]))
    );
    assert_eq!(
        parse_ip("FFFF:abcd::"),
        Some(IpAddress::V6([0xffff, 0xabcd, 0, 0, 0, 0, 0, 0]))
    );
    assert_eq!(
        parse_ip("::ffff:192.0.2.1"),
        Some(IpAddress::V6([0, 0, 0, 0, 0, 0xffff, 0xc000, 0x0201]))
    );
    assert_eq!(
        parse_ip("1:2:3:4:5:6:192.0.2.1"),
        Some(IpAddress::V6([1, 2, 3, 4, 5, 6, 0xc000, 0x0201]))
    );
    assert_eq!(parse_ip("1:2:3:4:5:6:7:8:9"), None);
    assert_eq!(parse_ip("1::2:3:4:5:6:7:8"), None);
    assert_eq!(parse_ip("1:2:3:4:5:6:7::"), Some(IpAddress::V6([1, 2, 3, 4, 5, 6, 7, 0])));
    assert_eq!(parse_ip("12345::"), None);
    assert_eq!(parse_ip("1::2::3"), None);
    assert_eq!(parse_ip(":::"), None);
    assert_eq!(parse_ip("192.0.2.1::"), None);
    assert_eq!(parse_ip("[::1]"), None);
    assert_eq!(parse_ip("g::"), None);
}

#[test]
fn source_labels() {
    assert_eq!(Source::ForwardedHeader.label(), "'Forwarded' header");
    assert_eq!(Source::XForwardedForHeader.label(), "'X-Forwarded-For' header");
    assert_eq!(Source::XRealIpHeader.label(), "'X-Real-Ip' header");
    assert_eq!(Source::SocketAddr.label(), "Socket address");
}
