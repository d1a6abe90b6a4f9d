use bondriver_mirakurun::http::{build_get_request, find_subslice, response_body};

#[test]
fn find_subslice_finds_first_occurrence() {
    assert_eq!(find_subslice(b"abcabc", b"bc"), Some(1));
    assert_eq!(find_subslice(b"abcabc", b"abc"), Some(0));
    assert_eq!(find_subslice(b"abcabc", b"cab"), Some(2));
    assert_eq!(find_subslice(b"abc", b"abcd"), None);
    assert_eq!(find_subslice(b"abc", b""), None);
    assert_eq!(find_subslice(b"", b"a"), None);
    assert_eq!(find_subslice(b"aaab", b"aab"), Some(1));
}

#[test]
fn response_body_follows_the_header() {
    let raw = b"HTTP/1.1 200 OK\r\nContent-Type: application/json\r\n\r\n[1,2]\r\n\r\nrest";
    assert_eq!(response_body(raw), Some("[1,2]\r\n\r\nrest".to_string()));
    assert_eq!(response_body(b"HTTP/1.1 200 OK\r\n"), None);
    assert_eq!(response_body(b"\r\n\r\n"), Some(String::new()));
    assert_eq!(response_body(b"H\r\n\r\n\xff"), Some("\u{fffd}".to_string()));
}

#[test]
fn get_request_text() {
    assert_eq!(
        build_get_request("192.168.0.10", "/api/channels"),
        "GET /api/channels HTTP/1.1\r\nHost: 192.168.0.10\r\nConnection: close\r\n\r\n"
    );
}

use bondriver_mirakurun::http::HeaderSkipper;

#[test]
fn stream_header_is_dropped() {
    let mut h = HeaderSkipper::new();
    assert_eq!(h.feed(b"HTTP/1.0 200 OK\r\nContent-Type: video/MP2T\r"), Vec::<u8>::new());
    assert_eq!(h.feed(b"\n"), Vec::<u8>::new());
    assert_eq!(h.feed(b"\r\nG\x00\x11"), vec![0x47, 0x00, 0x11]);
    assert_eq!(h.feed(b"\r\n\r\nmore"), b"\r\n\r\nmore".to_vec());
}

#[test]
fn stream_without_header_end_gives_nothing() {
    let mut h = HeaderSkipper::new();
    assert_eq!(h.feed(b"HTTP/1.0 503 Service Unavailable\r\n"), Vec::<u8>::new());
    assert_eq!(h.feed(b""), Vec::<u8>::new());
    let mut h = HeaderSkipper::new();
    assert_eq!(h.feed(b"H\r\n\r\n"), Vec::<u8>::new());
    assert_eq!(h.feed(b"ts"), b"ts".to_vec());
}

#[test]
fn stream_data_never_exceeds_the_read() {
    let mut h = HeaderSkipper::new();
    let first = vec![b'x'; 100];
    assert!(h.feed(&first).is_empty());
    let out = h.feed(b"\r\n\r\nAB");
    assert_eq!(out, b"AB".to_vec());
    assert!(out.len() <= 6);
}
