use pdr::file_url::{file_url_path_part, file_url_to_path, hex, percent_decode, percent_decode_bytes};
use pdr::pending::{push_path, take_pending, PendingPaths};

#[test]
fn hex_digits() {
    assert_eq!(hex(b'0'), Some(0));
    assert_eq!(hex(b'9'), Some(9));
    assert_eq!(hex(b'a'), Some(10));
    assert_eq!(hex(b'F'), Some(15));
    assert_eq!(hex(b'g'), None);
    assert_eq!(hex(b'/'), None);
}

#[test]
fn percent_escapes_are_decoded() {
    assert_eq!(percent_decode("/Users/me/My%20Book.pdf"), "/Users/me/My Book.pdf");
    assert_eq!(percent_decode("%E3%81%82.pdf"), "あ.pdf");
    assert_eq!(percent_decode("100%"), "100%");
    assert_eq!(percent_decode("%zz%4"), "%zz%4");
    assert_eq!(percent_decode("%41"), "A");
}

#[test]
fn invalid_utf8_after_decoding_is_replaced() {
    assert_eq!(percent_decode("a%FFb"), "a\u{FFFD}b");
}

#[test]
fn escape_needs_three_bytes_before_the_end() {
    assert_eq!(percent_decode_bytes(b"%41"), b"A".to_vec());
    assert_eq!(percent_decode_bytes(b"x%4"), b"x%4".to_vec());
    assert_eq!(percent_decode_bytes(b""), Vec::<u8>::new());
}

#[test]
fn file_urls_become_paths() {
    assert_eq!(
        file_url_to_path("file:///tmp/a%20b.pdf"),
        Some("/tmp/a b.pdf".to_string())
    );
    assert_eq!(
        file_url_to_path("file://localhost/tmp/x.pdf"),
        Some("/tmp/x.pdf".to_string())
    );
    assert_eq!(file_url_to_path("  file:///a.pdf \n"), Some("/a.pdf".to_string()));
    assert_eq!(file_url_to_path("file://host"), Some("host".to_string()));
    assert_eq!(file_url_to_path("http://example.com/a.pdf"), None);
    assert_eq!(file_url_to_path("/plain/path.pdf"), None);
}

#[test]
fn path_part_is_kept_escaped() {
    assert_eq!(file_url_path_part(b"file:///a%20b"), Some(b"/a%20b".to_vec()));
    assert_eq!(file_url_path_part(b"file:/"), None);
}

#[test]
fn pending_paths_are_taken_in_order_once() {
    let mut q = PendingPaths::new();
    assert!(take_pending(&mut q).is_empty());
    push_path(&mut q, "/a.pdf".to_string());
    push_path(&mut q, "/b.pdf".to_string());
    assert_eq!(take_pending(&mut q), vec!["/a.pdf".to_string(), "/b.pdf".to_string()]);
    assert!(take_pending(&mut q).is_empty());
}

#[test]
fn text_without_escapes_is_unchanged() {
    for s in ["", "100%", "%zz%2", "/tmp/plain.pdf", "%g1", "ü%"] {
        assert_eq!(percent_decode(s), s);
    }
    assert_eq!(percent_decode("%2f%2F"), "//");
}

#[test]
fn unicode_whitespace_is_trimmed_from_urls() {
    assert_eq!(
        file_url_to_path("\u{3000}\u{A0}file:///x.pdf\u{2029}\t"),
        Some("/x.pdf".to_string())
    );
    assert_eq!(file_url_to_path("\u{200B}file:///x.pdf"), None);
}
