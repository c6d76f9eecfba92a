use chronos_vfs::consumer::StateEngine;
use chronos_vfs::server::{handle_request, Response, ok_response_header, parse_request, Route, DEFAULT_CHUNK_LEN, NOT_FOUND_RESPONSE};

#[test]
fn parses_offset_and_len() {
    assert_eq!(
        parse_request(b"GET /virtual_file?offset=240&len=480 HTTP/1.1\r\nHost: x\r\n\r\n"),
        Route::Serve { offset: 240, len: 480 }
    );
}

#[test]
fn missing_parameters_take_defaults() {
    assert_eq!(
        parse_request(b"GET /virtual_file? HTTP/1.1\r\n\r\n"),
        Route::Serve { offset: 0, len: DEFAULT_CHUNK_LEN }
    );
    assert_eq!(parse_request(b"GET /virtual_file?len=24"), Route::Serve { offset: 0, len: 24 });
}

#[test]
fn unparsable_values_fall_back_to_defaults() {
    assert_eq!(
        parse_request(b"GET /virtual_file?offset=abc&len=-5 HTTP/1.1\r\n"),
        Route::Serve { offset: 0, len: 4096 }
    );
    assert_eq!(
        parse_request(b"GET /virtual_file?offset=18446744073709551616 HTTP/1.1\r\n"),
        Route::Serve { offset: 0, len: 4096 }
    );
    assert_eq!(
        parse_request(b"GET /virtual_file?offset=18446744073709551615 HTTP/1.1\r\n"),
        Route::Serve { offset: u64::MAX, len: 4096 }
    );
    assert_eq!(parse_request(b"GET /virtual_file?offset=+7&len=+ HTTP/1.1\r\n"), Route::Serve { offset: 7, len: 4096 });
    assert_eq!(parse_request(b"GET /virtual_file?offset= HTTP/1.1\r\n"), Route::Serve { offset: 0, len: 4096 });
}

#[test]
fn later_parameters_override_earlier_ones() {
    assert_eq!(
        parse_request(b"GET /virtual_file?offset=1&offset=2&len=3&len=x HTTP/1.1\r\n"),
        Route::Serve { offset: 2, len: 4096 }
    );
}

#[test]
fn unknown_and_malformed_pairs_are_ignored() {
    assert_eq!(
        parse_request(b"GET /virtual_file?foo=1&offset&&len=48=99&x HTTP/1.1\r\n"),
        Route::Serve { offset: 0, len: 48 }
    );
}

#[test]
fn repeated_path_prefix_is_stripped() {
    assert_eq!(
        parse_request(b"GET /virtual_file?/virtual_file?offset=5 HTTP/1.1\r\n"),
        Route::Serve { offset: 5, len: 4096 }
    );
}

#[test]
fn other_requests_are_not_found() {
    assert_eq!(parse_request(b"GET / HTTP/1.1\r\n\r\n"), Route::NotFound);
    assert_eq!(parse_request(b"POST /virtual_file?offset=1 HTTP/1.1\r\n"), Route::NotFound);
    assert_eq!(parse_request(b"\r\nGET /virtual_file?offset=1 HTTP/1.1\r\n"), Route::NotFound);
    assert_eq!(NOT_FOUND_RESPONSE, "HTTP/1.1 404 Not Found\r\n\r\n");
}

#[test]
fn only_the_first_line_counts_and_its_carriage_return_is_dropped() {
    assert_eq!(parse_request(b"GET /virtual_file?offset=9\r\nlen=1"), Route::Serve { offset: 9, len: 4096 });
    assert_eq!(parse_request(b"GET /virtual_file?offset=9\r"), Route::Serve { offset: 0, len: 4096 });
}

#[test]
fn empty_request_is_served_with_defaults() {
    assert_eq!(parse_request(b""), Route::Serve { offset: 0, len: 4096 });
}

#[test]
fn ok_header_carries_the_content_length() {
    assert_eq!(
        ok_response_header(96),
        "HTTP/1.1 200 OK\r\nContent-Type: application/octet-stream\r\nContent-Length: 96\r\nConnection: close\r\n\r\n"
    );
    assert!(ok_response_header(0).contains("Content-Length: 0\r\n"));
    assert!(ok_response_header(1234567890).contains("Content-Length: 1234567890\r\n"));
}

#[test]
fn handle_request_serves_the_asked_chunk() {
    let engine = StateEngine::new(0x1337);
    let mut ticks = Vec::new();
    match handle_request(&engine, b"GET /virtual_file?offset=24&len=50 HTTP/1.1\r\n\r\n", &mut ticks) {
        Response::Chunk { header, valid_bytes } => {
            assert_eq!(valid_bytes, 48);
            assert_eq!(header, ok_response_header(48));
        }
        _ => panic!("expected a chunk"),
    }
    assert_eq!(ticks, vec![engine.generate_tick(1), engine.generate_tick(2)]);
}

#[test]
fn handle_request_truncates_at_end_of_served_file() {
    let engine = StateEngine::new(0x1337);
    let mut ticks = Vec::new();
    match handle_request(&engine, b"GET /virtual_file?offset=9999999999950&len=4096 HTTP/1.1\r\n", &mut ticks) {
        Response::Chunk { valid_bytes, .. } => assert_eq!(valid_bytes, 48),
        _ => panic!("expected a chunk"),
    }
    assert_eq!(ticks.len(), 2);
}

#[test]
fn handle_request_not_found_and_out_of_range() {
    let engine = StateEngine::new(1);
    let mut ticks = Vec::new();
    assert!(matches!(handle_request(&engine, b"GET /other HTTP/1.1\r\n", &mut ticks), Response::NotFound));
    assert!(matches!(
        handle_request(&engine, b"GET /virtual_file?offset=10000000000001 HTTP/1.1\r\n", &mut ticks),
        Response::OutOfRange { offset: 10000000000001, len: 4096 }
    ));
    assert!(ticks.is_empty());
}
