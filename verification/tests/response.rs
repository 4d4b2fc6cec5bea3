use edge_scan::address::IpAddr;
use edge_scan::response::{
    is_successful_http_response, judge_response, judge_text, parse_colo, trace_request, TestResult,
    TraceError,
};

const REPLY: &str = "HTTP/1.1 200 OK\r\nServer: cloudflare\r\nCF-RAY: 8a1-FRA\r\n\r\nfl=1\ncolo=FRA\nip=1.2.3.4\n";

#[test]
fn the_request_asks_for_the_trace_page() {
    assert_eq!(
        trace_request(),
        "GET /cdn-cgi/trace HTTP/1.1\r\nHost: cloudflare.com\r\nUser-Agent: CFScanner/1.0\r\nConnection: close\r\nAccept: */*\r\n\r\n"
    );
}

#[test]
fn success_and_redirection_pass() {
    for text in ["HTTP/1.1 200 OK", "HTTP/1.1 399 X\r\n", "x 301", " HTTP/1.1\t+204 ", "a 00200"] {
        assert!(is_successful_http_response(text), "{:?}", text);
    }
}

#[test]
fn other_status_lines_do_not_pass() {
    let samples = [
        "", "\n", "\r\nHTTP/1.1 200 OK", "HTTP/1.1", "200", "HTTP/1.1 199", "HTTP/1.1 400 Bad",
        "HTTP/1.1 500", "HTTP/1.1 OK 200", "HTTP/1.1 65736", "HTTP/1.1 -200", "HTTP/1.1 200.0",
        "HTTP/1.1\n200",
    ];
    for text in samples {
        assert!(!is_successful_http_response(text), "{:?}", text);
    }
}

#[test]
fn the_first_colo_line_counts() {
    assert_eq!(parse_colo("colo=FRA"), Some("FRA".to_string()));
    assert_eq!(parse_colo("fl=1\r\ncolo= AMS \r\ncolo=FRA"), Some("AMS".to_string()));
    assert_eq!(parse_colo("colo=\ncolo=FRA"), None);
    assert_eq!(parse_colo("colo=  \t"), None);
    assert_eq!(parse_colo(" colo=FRA"), None);
    assert_eq!(parse_colo("COLO=FRA"), None);
    assert_eq!(parse_colo("x=colo=FRA\ncolo=LHR\r"), Some("LHR".to_string()));
    assert_eq!(parse_colo(""), None);
}

#[test]
fn a_good_reply_names_its_data_centre() {
    assert_eq!(judge_text(REPLY), Ok("FRA".to_string()));
    assert_eq!(judge_response(REPLY.as_bytes()), Ok("FRA".to_string()));
}

#[test]
fn a_reply_without_a_name_gets_the_default_one() {
    assert_eq!(judge_text("HTTP/1.1 200 OK\r\ncf-ray: 1"), Ok("Default".to_string()));
    assert_eq!(judge_text("HTTP/1.1 200 OK\r\nCf-Ray:1\r\n\r\ncolo=\r\n"), Ok("Default".to_string()));
    let late = "HTTP/1.1 200 OK\r\ncf-ray:1\r\n\r\nfl=1\r\n\r\ncolo=FRA";
    assert_eq!(judge_text(late), Ok("Default".to_string()));
    let early = "HTTP/1.1 200 OK\r\ncolo=FRA\r\ncf-ray:1\r\n\r\nfl=1";
    assert_eq!(judge_text(early), Ok("Default".to_string()));
}

#[test]
fn a_reply_can_be_turned_down_in_two_ways() {
    assert_eq!(judge_text(""), Err(TraceError::HttpValidation));
    assert_eq!(judge_text("HTTP/1.1 403 X\r\ncf-ray: 1"), Err(TraceError::HttpValidation));
    assert_eq!(judge_text("HTTP/1.1 200 OK\r\nx-cf-ray: 1"), Err(TraceError::MissingRay));
    assert_eq!(judge_text("HTTP/1.1 200 OK\r\ncf-ray 1"), Err(TraceError::MissingRay));
    let ip = IpAddr::V4(0x01020304);
    assert_eq!(TraceError::HttpValidation.message(ip), "HTTP validation failed for 1.2.3.4");
    assert_eq!(TraceError::MissingRay.message(ip), "Missing CF-Ray header for 1.2.3.4");
}

#[test]
fn bytes_that_are_no_text_are_replaced() {
    let bytes = b"HTTP/1.1 200 OK\r\ncf-ray:1\r\n\r\ncolo=A\xffB";
    assert_eq!(judge_response(bytes), Ok("A\u{fffd}B".to_string()));
    assert_eq!(judge_response(&[0xff]), Err(TraceError::HttpValidation));
}

#[test]
fn a_passed_test_keeps_what_was_measured() {
    let result = TestResult::passed(7, 250, "FRA".to_string());
    assert_eq!(result.ip, IpAddr::V4(7));
    assert_eq!(result.latency, 250);
    assert_eq!(result.colo, "FRA");
    let long = TestResult::passed(7, (1u128 << 64) + 3, String::new());
    assert_eq!(long.latency, 3);
}
