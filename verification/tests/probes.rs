use egressd::probes::{
    address, connect_reply_ok, connect_request, decimal, parse_warp_status, socks5_greeting,
    socks5_reply_ok, trim_ws,
};

#[test]
fn socks5_bytes() {
    assert_eq!(socks5_greeting(), vec![0x05, 0x01, 0x00]);
    assert!(socks5_reply_ok(&[0x05, 0x00]));
    assert!(!socks5_reply_ok(&[0x05, 0xff]));
    assert!(!socks5_reply_ok(&[0x05]));
}

#[test]
fn connect_text_exact() {
    assert_eq!(decimal(0), "0");
    assert_eq!(decimal(443), "443");
    assert_eq!(decimal(18446744073709551615), "18446744073709551615");
    assert_eq!(address("127.0.0.1", 1080), "127.0.0.1:1080");
    assert_eq!(
        connect_request("example.com", 443),
        "CONNECT example.com:443 HTTP/1.1\r\nHost: example.com:443\r\n\r\n"
    );
}

#[test]
fn connect_reply_status_line() {
    assert!(connect_reply_ok(b"HTTP/1.1 200 Connection established\r\n\r\n"));
    assert!(!connect_reply_ok(b"HTTP/1.1 502 Bad Gateway\r\n\r\n"));
    assert!(!connect_reply_ok(b""));
    // Only the status line counts.
    assert!(!connect_reply_ok(b"HTTP/1.1 403 No\r\nX: 200 \r\n"));
    assert!(connect_reply_ok(b"HTTP/1.0 200 OK"));
}

#[test]
fn trim_whitespace() {
    assert_eq!(trim_ws("  Connected \t"), "Connected");
    assert_eq!(trim_ws(""), "");
    assert_eq!(trim_ws("   "), "");
}

#[test]
fn warp_status_lines() {
    assert_eq!(parse_warp_status("Status update: Connected\n").as_deref(), Some("Connected"));
    assert_eq!(
        parse_warp_status("Banner\r\nStatus update: Disconnected\r\nReason: x\n").as_deref(),
        Some("Disconnected")
    );
    assert_eq!(parse_warp_status("Status update: a:b").as_deref(), Some("a:b"));
    assert_eq!(parse_warp_status("nothing here\n"), None);
    assert_eq!(parse_warp_status(""), None);
}
