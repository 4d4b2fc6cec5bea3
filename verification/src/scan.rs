//! What is decided and said of a proxy while it is checked.

use vstd::prelude::*;

use crate::meta::{CheckError, WorkerCf};
#[allow(unused_imports)]
use crate::meta::{check_error_text, content, law_check_error_text, same_check_error};
#[allow(unused_imports)]
use crate::number::decimal;
use crate::number::decimal_chars;
use crate::table::{ProxyInfo, ProxyTable};
#[allow(unused_imports)]
use crate::table::{grown_by, ProxyEntry};
use crate::text::to_text;

verus! {

/// The content of an optional text, or another where there is none.
pub open spec fn told(text: Option<String>, otherwise: Seq<char>) -> Seq<char> {
    match content(text) {
        Some(text) => text,
        None => otherwise,
    }
}

/// What is known of a proxy that passed, from the place that it was told to be in.
pub open spec fn known_proxy(ip: Seq<char>, port: u16, place: WorkerCf) -> ProxyEntry {
    ProxyEntry {
        ip,
        port,
        isp: told(place.isp, "Unknown"@),
        country_code: told(place.country, "XX"@),
        city: told(place.city, "Unknown"@),
        region: told(place.region, "Unknown"@),
    }
}

/// An optional text, or another where there is none.
fn told_or(text: Option<String>, otherwise: &str) -> (result: String)
    ensures
        result@ == told(text, otherwise@),
{
    match text {
        Some(text) => text,
        None => otherwise.to_string(),
    }
}

/// What is known of a proxy that passed.
pub fn proxy_info(ip: String, port: u16, place: WorkerCf) -> (info: ProxyInfo)
    ensures
        info@ == known_proxy(ip@, port, place),
{
    ProxyInfo {
        ip,
        port,
        isp: told_or(place.isp, "Unknown"),
        country_code: told_or(place.country, "XX"),
        city: told_or(place.city, "Unknown"),
        region: told_or(place.region, "Unknown"),
    }
}

/// How the check of a proxy ended.
#[derive(Debug)]
pub enum ScanReport {
    /// It passed both checks.
    Validated {
        /// What is known of it.
        info: ProxyInfo,
        /// The milliseconds of the first check.
        ping: u128,
        /// The milliseconds of the second check.
        validation_ping: u128,
    },
    /// It passed the first check only; holds what was said in the second.
    Rejected(String),
    /// It did not pass the first check; holds what was said in it.
    Dead(String),
}

/// What follows on the first check.
#[derive(Debug)]
pub enum ScanStep {
    /// The second check, of a proxy in a place, after so many milliseconds.
    Validate(WorkerCf, u128),
    /// The end.
    Done(ScanReport),
}

/// Decides what follows on the first check.
pub fn after_check(check: Result<(WorkerCf, u128), CheckError>) -> (step: ScanStep)
    ensures
        match check {
            Ok((place, ping)) => step == ScanStep::Validate(place, ping),
            Err(error) => step matches ScanStep::Done(ScanReport::Dead(text)) && text@
                == check_error_text(error),
        },
{
    match check {
        Ok((place, ping)) => ScanStep::Validate(place, ping),
        Err(error) => ScanStep::Done(ScanReport::Dead(error.message())),
    }
}

/// Decides how the check ends when both checks were made.
pub fn after_validation(
    ip: String,
    port: u16,
    place: WorkerCf,
    ping: u128,
    validation: Result<u128, String>,
) -> (report: ScanReport)
    ensures
        match validation {
            Ok(elapsed) => {
                &&& report matches ScanReport::Validated { info, ping: first, validation_ping }
                &&& info@ == known_proxy(ip@, port, place)
                &&& first == ping
                &&& validation_ping == elapsed
            },
            Err(text) => report == ScanReport::Rejected(text),
        },
{
    match validation {
        Ok(elapsed) => ScanReport::Validated {
            info: proxy_info(ip, port, place),
            ping,
            validation_ping: elapsed,
        },
        Err(text) => ScanReport::Rejected(text),
    }
}

/// What is printed at the end of a check.
pub open spec fn report_line_text(ip: Seq<char>, port: u16, report: ScanReport) -> Seq<char> {
    match report {
        ScanReport::Validated { info, ping, validation_ping } => "PROXY VALIDATED ✅: "@ + ip
            + ":"@ + decimal(port as nat) + " (meta: "@ + decimal(ping as nat)
            + "ms, validation: "@ + decimal(validation_ping as nat) + "ms) - "@ + info.city@,
        ScanReport::Rejected(error) => "PROXY REJECTED ⚠️: "@ + ip + ":"@ + decimal(port as nat)
            + " (passed /meta but failed validation: "@ + error@ + ")"@,
        ScanReport::Dead(error) => "PROXY DEAD ❌: "@ + ip + ":"@ + decimal(port as nat) + " ("@
            + error@ + ")"@,
    }
}

/// What is printed at the end of a check.
pub fn report_line(ip: &str, port: u16, report: &ScanReport) -> (line: String)
    ensures
        line@ == report_line_text(ip@, port, *report),
{
    let mut line: String = match report {
        ScanReport::Validated { .. } => "PROXY VALIDATED ✅: ".to_string(),
        ScanReport::Rejected(_) => "PROXY REJECTED ⚠️: ".to_string(),
        ScanReport::Dead(_) => "PROXY DEAD ❌: ".to_string(),
    };
    line.append(ip);
    line.append(":");
    line.append(to_text(&decimal_chars(port as u128)).as_str());
    match report {
        ScanReport::Validated { info, ping, validation_ping } => {
            line.append(" (meta: ");
            line.append(to_text(&decimal_chars(*ping)).as_str());
            line.append("ms, validation: ");
            line.append(to_text(&decimal_chars(*validation_ping)).as_str());
            line.append("ms) - ");
            line.append(info.city.as_str());
        },
        ScanReport::Rejected(error) => {
            line.append(" (passed /meta but failed validation: ");
            line.append(error.as_str());
            line.append(")");
        },
        ScanReport::Dead(error) => {
            line.append(" (");
            line.append(error.as_str());
            line.append(")");
        },
    }
    line
}

/// The line of a proxy that did not pass the first check tells why: two lines of
/// one proxy are the same only if the errors are of one kind with the same cause. A
/// connection that could not be set up is compared with its like only.
pub proof fn law_dead_line_tells_error(
    ip: Seq<char>,
    port: u16,
    a: CheckError,
    b: CheckError,
    said_of_a: String,
    said_of_b: String,
)
    requires
        a is Client <==> b is Client,
        said_of_a@ == check_error_text(a),
        said_of_b@ == check_error_text(b),
        report_line_text(ip, port, ScanReport::Dead(said_of_a)) == report_line_text(
            ip,
            port,
            ScanReport::Dead(said_of_b),
        ),
    ensures
        same_check_error(a, b),
{
    let start = "PROXY DEAD ❌: "@ + ip + ":"@ + decimal(port as nat) + " ("@;
    let first = report_line_text(ip, port, ScanReport::Dead(said_of_a));
    let second = report_line_text(ip, port, ScanReport::Dead(said_of_b));
    assert(first == start + said_of_a@ + ")"@);
    assert(second == start + said_of_b@ + ")"@);
    let (from, to) = (start.len() as int, first.len() - ")"@.len());
    assert(first.subrange(from, to) =~= said_of_a@);
    assert(second.subrange(from, to) =~= said_of_b@);
    law_check_error_text(a, b);
}

/// Enters the end of a check into the table: a proxy that passed is added, and
/// nothing else changes.
pub fn record_report(table: &mut ProxyTable, report: ScanReport)
    requires
        old(table).wf(),
    ensures
        final(table).wf(),
        match report {
            ScanReport::Validated { info, .. } => grown_by(old(table)@, final(table)@, info@),
            _ => final(table)@ == old(table)@,
        },
{
    if let ScanReport::Validated { info, .. } = report {
        table.add(info);
    }
}

/// What is known of a proxy that passed both checks is what the first told of its
/// place, and a stand-in for what it did not tell.
pub proof fn law_known_of_proxy(
    ip: String,
    port: u16,
    place: WorkerCf,
    ping: u128,
    elapsed: u128,
    report: ScanReport,
)
    requires
        call_ensures(
            after_validation,
            (ip, port, place, ping, Ok::<u128, String>(elapsed)),
            report,
        ),
    ensures
        report matches ScanReport::Validated { info, ping: first, validation_ping } && {
            &&& info.ip@ == ip@
            &&& info.port == port
            &&& first == ping
            &&& validation_ping == elapsed
            &&& info.isp@ == (match place.isp {
                Some(text) => text@,
                None => "Unknown"@,
            })
            &&& info.city@ == (match place.city {
                Some(text) => text@,
                None => "Unknown"@,
            })
            &&& info.region@ == (match place.region {
                Some(text) => text@,
                None => "Unknown"@,
            })
            &&& info.country_code@ == (match place.country {
                Some(text) => text@,
                None => "XX"@,
            })
        },
{
}

/// The line of a proxy shows the whole address, the port and the milliseconds, and
/// its city, or what was said of it.
pub proof fn law_line_shows_all(
    ip: &str,
    port: u16,
    info: ProxyInfo,
    ping: u128,
    validation_ping: u128,
    said: String,
    validated: String,
    rejected: String,
    dead: String,
)
    requires
        call_ensures(
            report_line,
            (ip, port, &ScanReport::Validated { info, ping, validation_ping }),
            validated,
        ),
        call_ensures(report_line, (ip, port, &ScanReport::Rejected(said)), rejected),
        call_ensures(report_line, (ip, port, &ScanReport::Dead(said)), dead),
    ensures
        validated@ == "PROXY VALIDATED ✅: "@ + ip@ + ":"@ + decimal(port as nat) + " (meta: "@
            + decimal(ping as nat) + "ms, validation: "@ + decimal(validation_ping as nat)
            + "ms) - "@ + info.city@,
        rejected@ == "PROXY REJECTED ⚠️: "@ + ip@ + ":"@ + decimal(port as nat)
            + " (passed /meta but failed validation: "@ + said@ + ")"@,
        dead@ == "PROXY DEAD ❌: "@ + ip@ + ":"@ + decimal(port as nat) + " ("@ + said@ + ")"@,
{
}

/// A proxy that passed the first check goes to the second with its place and its
/// milliseconds; another ends as dead, and a proxy that failed the second check as
/// rejected, with what was said.
pub proof fn law_checks_in_turn(
    place: WorkerCf,
    ping: u128,
    error: CheckError,
    said: String,
    ip: String,
    port: u16,
    passed: ScanStep,
    failed: ScanStep,
    rejected: ScanReport,
)
    requires
        call_ensures(after_check, (Ok::<(WorkerCf, u128), CheckError>((place, ping)),), passed),
        call_ensures(after_check, (Err::<(WorkerCf, u128), CheckError>(error),), failed),
        call_ensures(
            after_validation,
            (ip, port, place, ping, Err::<u128, String>(said)),
            rejected,
        ),
    ensures
        passed == ScanStep::Validate(place, ping),
        failed matches ScanStep::Done(ScanReport::Dead(text)) && text@ == check_error_text(error),
        rejected == ScanReport::Rejected(said),
{
}

} // verus!
