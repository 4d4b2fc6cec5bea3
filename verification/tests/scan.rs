use edge_scan::address::IpAddr;
use edge_scan::meta::{
    check_meta_status, check_target, judge_meta, judge_origin, CheckError, WorkerCf,
};
use edge_scan::scan::{
    after_check, after_validation, proxy_info, record_report, report_line, ScanStep,
};
use edge_scan::table::ProxyTable;
use edge_scan::validation::{HostOutcome, Validation, ValidationStep};

fn nowhere() -> WorkerCf {
    WorkerCf { isp: None, city: None, region: None, country: None }
}

fn reply(status: u16, elapsed_ms: u128) -> HostOutcome {
    HostOutcome::Reply { status, status_text: format!("{} X", status), elapsed_ms }
}

#[test]
fn a_reply_from_elsewhere_passes_with_its_place() {
    let body = br#"{"clientIp":"5.5.5.5","asOrganization":"Net","city":"Oslo","country":"NO","asn":7}"#;
    let place = judge_meta(body, "9.9.9.9").unwrap();
    assert_eq!(place.isp.as_deref(), Some("Net"));
    assert_eq!(place.city.as_deref(), Some("Oslo"));
    assert_eq!(place.country.as_deref(), Some("NO"));
    assert_eq!(place.region, None);
}

#[test]
fn members_that_are_no_strings_do_not_count() {
    let place = judge_meta(br#"{"clientIp":"5.5.5.5","city":null,"country":7}"#, "x").unwrap();
    assert_eq!(place.city, None);
    assert_eq!(place.country, None);
    let said = |body: &[u8]| judge_meta(body, "9.9.9.9").unwrap_err().message();
    assert_eq!(said(br#"{"clientIp":5}"#), "no clientIp field in /meta response");
    assert_eq!(said(b"[]"), "no clientIp field in /meta response");
    assert_eq!(said(br#"{"clientIp":""}"#), "no clientIp field in /meta response");
    assert_eq!(
        said(b"not json"),
        "meta JSON parse failed: expected ident at line 1 column 2"
    );
    assert_eq!(
        said(b""),
        "meta JSON parse failed: EOF while parsing a value at line 1 column 0"
    );
    assert_eq!(
        said(br#"{"clientIp":"9.9.9.9"}"#),
        "clientIp == self IP (9.9.9.9), not going through a proxy"
    );
}

#[test]
fn the_origin_is_judged_by_its_address() {
    assert!(judge_origin(Some("a".to_string()), "b", nowhere()).is_ok());
    assert!(matches!(judge_origin(None, "b", nowhere()), Err(CheckError::NoClientIp)));
    assert!(matches!(judge_origin(Some(String::new()), "", nowhere()), Err(CheckError::NoClientIp)));
    assert!(matches!(judge_origin(Some("b".to_string()), "b", nowhere()), Err(CheckError::SelfIp(_))));
}

#[test]
fn the_first_check_can_fail_in_other_ways() {
    assert!(check_meta_status(200, "200 OK".to_string()).is_ok());
    let error = check_meta_status(503, "503 Service Unavailable".to_string()).unwrap_err();
    assert_eq!(error.message(), "meta returned HTTP 503 Service Unavailable");
    assert_eq!(CheckError::InvalidIp("x".to_string()).message(), "invalid IP: x");
    assert_eq!(CheckError::Client("cause".to_string()).message(), "cause");
    assert_eq!(CheckError::Request("cause".to_string()).message(), "meta request failed: cause");
}

#[test]
fn only_an_address_can_be_checked() {
    assert!(matches!(check_target("8.8.8.8"), Ok(IpAddr::V4(0x08080808))));
    assert!(matches!(check_target("::8"), Ok(IpAddr::V6(8))));
    assert_eq!(check_target("example.com").unwrap_err().message(), "invalid IP: example.com");
    assert_eq!(check_target("").unwrap_err().message(), "invalid IP: ");
}

#[test]
fn the_line_of_a_dead_proxy_tells_its_failures_apart() {
    let line = |error: CheckError| match after_check(Err(error)) {
        ScanStep::Done(report) => report_line("1.1.1.1", 443, &report),
        ScanStep::Validate(_, _) => panic!("a failed check goes on"),
    };
    let lines = [
        line(CheckError::Request("error sending request: certificate expired".to_string())),
        line(CheckError::Request("error sending request: operation timed out".to_string())),
        line(CheckError::NotJson("expected value".to_string())),
        line(CheckError::NotJson("EOF".to_string())),
        line(CheckError::SelfIp("9.9.9.9".to_string())),
        line(CheckError::NoClientIp),
        line(CheckError::Status("503".to_string())),
    ];
    assert_eq!(
        lines[1],
        "PROXY DEAD ❌: 1.1.1.1:443 (meta request failed: error sending request: operation timed out)"
    );
    for i in 0..lines.len() {
        for k in 0..i {
            assert_ne!(lines[i], lines[k]);
        }
    }
}

#[test]
fn the_first_host_that_accepts_decides() {
    let start = Validation::new();
    assert_eq!(start.host(), Some("ipv4.090227.xyz"));
    assert!(matches!(start.step(reply(200, 40)), ValidationStep::Accepted(40)));
    let second = match Validation::new().step(reply(204, 5)) {
        ValidationStep::Next(next) => next,
        ValidationStep::Accepted(_) => panic!("a reply other than 200 was accepted"),
    };
    assert_eq!(second.host(), Some("ipv6.090227.xyz"));
    assert!(matches!(second.step(reply(200, 60)), ValidationStep::Accepted(60)));
}

fn failing(outcomes: Vec<HostOutcome>) -> Validation {
    let mut validation = Validation::new();
    for outcome in outcomes {
        validation = match validation.step(outcome) {
            ValidationStep::Next(next) => next,
            ValidationStep::Accepted(_) => panic!("accepted"),
        };
    }
    validation
}

#[test]
fn the_last_failure_is_told() {
    let both = failing(vec![
        HostOutcome::ClientFailed("a".to_string()),
        HostOutcome::RequestFailed("b".to_string()),
    ]);
    assert_eq!(both.host(), None);
    assert_eq!(both.failure(), "request to ipv6.090227.xyz failed: b");
    let first = failing(vec![HostOutcome::RequestFailed("b".to_string())]);
    assert_eq!(first.failure(), "request to ipv4.090227.xyz failed: b");
    let second = failing(vec![reply(500, 1), HostOutcome::ClientFailed("a".to_string())]);
    assert_eq!(second.failure(), "client build failed: a");
    let third = failing(vec![HostOutcome::ClientFailed("a".to_string()), reply(404, 1)]);
    assert_eq!(third.failure(), "non-200 response: HTTP 404 X");
    assert_eq!(Validation::new().failure(), "All validation hosts failed");
}

#[test]
fn unknown_parts_of_a_place_have_stand_ins() {
    let info = proxy_info("1.1.1.1".to_string(), 443, nowhere());
    assert_eq!(info.ip, "1.1.1.1");
    assert_eq!(info.port, 443);
    assert_eq!((info.isp.as_str(), info.city.as_str()), ("Unknown", "Unknown"));
    assert_eq!((info.region.as_str(), info.country_code.as_str()), ("Unknown", "XX"));
    let place = WorkerCf {
        isp: Some("i".to_string()),
        city: Some("c".to_string()),
        region: Some("r".to_string()),
        country: Some("NO".to_string()),
    };
    let known = proxy_info("1.1.1.1".to_string(), 80, place);
    assert_eq!((known.isp.as_str(), known.city.as_str()), ("i", "c"));
    assert_eq!((known.region.as_str(), known.country_code.as_str()), ("r", "NO"));
}

#[test]
fn a_check_ends_in_one_of_three_ways() {
    let dead = match after_check(Err(CheckError::NotJson("cause".to_string()))) {
        ScanStep::Done(report) => report,
        ScanStep::Validate(_, _) => panic!("a failed check goes on"),
    };
    assert_eq!(report_line("1.1.1.1", 443, &dead), "PROXY DEAD ❌: 1.1.1.1:443 (meta JSON parse failed: cause)");
    assert!(matches!(after_check(Ok((nowhere(), 9))), ScanStep::Validate(_, 9)));
    let rejected = after_validation("a".to_string(), 443, nowhere(), 9, Err("why".to_string()));
    assert_eq!(
        report_line("1.1.1.1", 443, &rejected),
        "PROXY REJECTED ⚠️: 1.1.1.1:443 (passed /meta but failed validation: why)"
    );
    let passed = after_validation("1.1.1.1".to_string(), 443, nowhere(), 9, Ok(17));
    assert_eq!(
        report_line("1.1.1.1", 443, &passed),
        "PROXY VALIDATED ✅: 1.1.1.1:443 (meta: 9ms, validation: 17ms) - Unknown"
    );
    let mut table = ProxyTable::new();
    record_report(&mut table, dead);
    record_report(&mut table, rejected);
    assert_eq!(table.proxy_count(), 0);
    record_report(&mut table, passed);
    assert_eq!(table.proxy_count(), 1);
    assert_eq!(table.group(0).code, "XX");
    assert_eq!(table.group(0).proxies[0].ip, "1.1.1.1");
}
