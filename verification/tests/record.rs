use edge_scan::address::{parse_ip, IpAddr};
use edge_scan::clock::{current_tehran_time, record_time, report_times, DAY, EARLIEST, LATEST};
use edge_scan::ranges::{
    accept_ranges, check_ranges_status, is_success_code, CloudflareApiResponse, CloudflareRanges,
    RangesError,
};
use edge_scan::record::{
    make_ipv6_record, make_output, make_record, passed_results, record_at, written_results,
};
use edge_scan::response::TestResult;

fn result(address: u32) -> TestResult {
    TestResult::passed(address, 12, "FRA".to_string())
}

#[test]
fn tehran_is_ahead_of_utc() {
    assert_eq!(record_time(1704067200), "2024-01-01 03:30:00");
    assert_eq!(record_time(0), "1970-01-01 03:30:00");
    assert_eq!(record_time(1625140800), "2021-07-01 16:30:00");
    assert_eq!(record_time(1704067199), "2024-01-01 03:29:59");
}

#[test]
fn the_next_report_is_a_day_later() {
    let (last, next) = report_times(1704067200);
    assert_eq!(last, "Mon, 01 Jan 2024 03:30");
    assert_eq!(next, "Tue, 02 Jan 2024 03:30");
}

#[test]
fn every_second_with_a_date_can_be_written() {
    assert!(!record_time(EARLIEST).is_empty());
    assert!(!record_time(LATEST).is_empty());
    let (last, next) = report_times(LATEST - DAY);
    assert_ne!(last, next);
}

#[test]
fn the_current_time_has_the_form_of_a_record() {
    let now = current_tehran_time();
    assert_eq!(now.len(), 19);
    assert_eq!(&now[4..5], "-");
    assert_eq!(&now[10..11], " ");
    assert_eq!(&now[13..14], ":");
}

#[test]
fn a_record_holds_what_was_found_and_fixed_values() {
    let record = record_at(IpAddr::V4(0x01020304), 87, "AMS", "now".to_string());
    assert_eq!(record.colo, "AMS");
    assert_eq!(record.ip, "1.2.3.4");
    assert_eq!(record.latency, 87);
    assert_eq!(record.line, "CF");
    assert_eq!(record.loss, 0);
    assert_eq!(record.node, "CFScanner");
    assert_eq!(record.speed, 0);
    assert_eq!(record.time, "now");
}

#[test]
fn records_are_made_of_results_and_of_listed_addresses() {
    let record = make_record(&result(0x05060708));
    assert_eq!(record.ip, "5.6.7.8");
    assert_eq!(record.latency, 12);
    assert_eq!(record.colo, "FRA");
    assert_eq!(record.time.len(), 19);
    assert_eq!(parse_ip(&record.ip), Some(IpAddr::V4(0x05060708)));
    let listed = make_ipv6_record(1);
    assert_eq!(listed.ip, "::1");
    assert_eq!(listed.colo, "Default");
    assert_eq!(listed.latency, 0);
}

#[test]
fn tests_that_failed_are_left_out() {
    let outcomes = vec![None, Some(result(1)), None, Some(result(2)), Some(result(3))];
    let kept: Vec<IpAddr> = passed_results(outcomes).iter().map(|r| r.ip).collect();
    assert_eq!(kept, vec![IpAddr::V4(1), IpAddr::V4(2), IpAddr::V4(3)]);
    assert!(passed_results(vec![None]).is_empty());
}

#[test]
fn the_first_results_are_written() {
    assert!(written_results(vec![]).is_none());
    let few = written_results((0..3).map(result).collect()).unwrap();
    assert_eq!(few.len(), 3);
    let many = written_results((0..60).map(result).collect()).unwrap();
    assert_eq!(many.len(), 25);
    assert_eq!(many[24].ip, IpAddr::V4(24));
}

#[test]
fn the_output_has_a_record_for_each_address() {
    let output = make_output(&vec![result(1), result(2)], &vec![3, 4, 5]);
    assert_eq!(output.ipv4.len(), 2);
    assert_eq!(output.ipv4[1].ip, "0.0.0.2");
    assert_eq!(output.ipv6.len(), 3);
    assert_eq!(output.ipv6[2].ip, "::5");
}

#[test]
fn ranges_come_only_from_a_reply_of_success() {
    assert!(is_success_code(200) && is_success_code(299));
    assert!(!is_success_code(199) && !is_success_code(300));
    assert!(check_ranges_status(204, "204 No Content".to_string()).is_ok());
    let error = check_ranges_status(404, "404 Not Found".to_string()).unwrap_err();
    assert_eq!(error.message(), "Cloudflare IP API returned HTTP 404 Not Found");
    let body = |success: bool| CloudflareApiResponse {
        success,
        result: CloudflareRanges { ipv4_cidrs: vec!["a".to_string()], ipv6_cidrs: vec![] },
    };
    assert_eq!(accept_ranges(body(true)).unwrap().ipv4_cidrs, vec!["a".to_string()]);
    let refused = accept_ranges(body(false)).unwrap_err();
    assert!(matches!(refused, RangesError::NotSuccess));
    assert_eq!(refused.message(), "Cloudflare IP API returned success=false");
}
