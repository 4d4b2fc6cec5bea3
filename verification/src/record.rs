//! The records that are written of the addresses that were found.

use vstd::prelude::*;

#[allow(unused_imports)]
use crate::address::{ip_text, ip_value, law_ip_round_trip};
use crate::address::IpAddr;
#[allow(unused_imports)]
use crate::clock::{has_date, is_record_time, tehran_text};
use crate::clock::{record_time, utc_seconds, Reading};
use crate::response::{TestResult, DEFAULT_COLO};

verus! {

/// The most 32-bit addresses that are written.
pub const IPV4_OUTPUT_COUNT: usize = 25;

/// What is written of one address.
#[derive(Debug)]
pub struct IpRecord {
    /// The data centre.
    pub colo: String,
    /// The address as text.
    pub ip: String,
    /// The milliseconds that its test took.
    pub latency: u64,
    /// The line, always the same.
    pub line: String,
    /// The loss, always zero.
    pub loss: u8,
    /// The program that made the record.
    pub node: String,
    /// The speed, always zero.
    pub speed: u64,
    /// When the record was made.
    pub time: String,
}

/// What is written of all addresses.
#[derive(Debug)]
pub struct CloudflareOutput {
    /// The tested 32-bit addresses.
    pub ipv4: Vec<IpRecord>,
    /// The listed 128-bit addresses.
    pub ipv6: Vec<IpRecord>,
}

/// Whether a record holds these values, and the fixed ones.
pub open spec fn records(
    record: IpRecord,
    ip: IpAddr,
    latency: u64,
    colo: Seq<char>,
    time: Seq<char>,
) -> bool {
    &&& record.colo@ == colo
    &&& record.ip@ == ip_text(ip)
    &&& record.latency == latency
    &&& record.line@ == "CF"@
    &&& record.loss == 0
    &&& record.node@ == "CFScanner"@
    &&& record.speed == 0
    &&& record.time@ == time
}

/// The record of an address, made at a given time.
pub fn record_at(ip: IpAddr, latency: u64, colo: &str, time: String) -> (record: IpRecord)
    ensures
        records(record, ip, latency, colo@, time@),
{
    IpRecord {
        colo: colo.to_string(),
        ip: ip.to_text(),
        latency,
        line: "CF".to_string(),
        loss: 0,
        node: "CFScanner".to_string(),
        speed: 0,
        time,
    }
}

/// Whether this is the record of a test result.
pub open spec fn is_record_of(record: IpRecord, result: TestResult) -> bool {
    records(record, result.ip, result.latency, result.colo@, record.time@) && is_record_time(
        record.time@,
    )
}

/// Whether this is the record of a listed 128-bit address.
pub open spec fn is_ipv6_record_of(record: IpRecord, address: u128) -> bool {
    records(record, IpAddr::V6(address), 0, DEFAULT_COLO@, record.time@) && is_record_time(
        record.time@,
    )
}

/// The time of a record that is made now.
pub fn current_tehran_time() -> (text: String)
    ensures
        is_record_time(text@),
{
    let now: Reading = utc_seconds();
    record_time(now.seconds())
}

/// The record of a test result, made now.
pub fn make_record(result: &TestResult) -> (record: IpRecord)
    ensures
        is_record_of(record, *result),
{
    record_at(result.ip, result.latency, result.colo.as_str(), current_tehran_time())
}

/// The record of a listed 128-bit address, made now.
pub fn make_ipv6_record(address: u128) -> (record: IpRecord)
    ensures
        is_ipv6_record_of(record, address),
{
    record_at(IpAddr::V6(address), 0, DEFAULT_COLO, current_tehran_time())
}

/// The results of the tests that passed, in order.
pub open spec fn passed(outcomes: Seq<Option<TestResult>>) -> Seq<TestResult>
    decreases outcomes.len(),
{
    if outcomes.len() == 0 {
        Seq::empty()
    } else {
        match outcomes.last() {
            Some(result) => passed(outcomes.drop_last()).push(result),
            None => passed(outcomes.drop_last()),
        }
    }
}

/// Keeps the results of the tests that passed.
pub fn passed_results(outcomes: Vec<Option<TestResult>>) -> (results: Vec<TestResult>)
    ensures
        results@ == passed(outcomes@),
{
    let mut results: Vec<TestResult> = Vec::new();
    let ghost all = outcomes@;
    for outcome in it: outcomes
        invariant
            it.seq() == all,
            results@ == passed(all.take(it.index() as int)),
    {
        let ghost i = it.index() as int;
        assert(all.take(i + 1).drop_last() =~= all.take(i));
        if let Some(result) = outcome {
            results.push(result);
        }
    }
    assert(all.take(all.len() as int) =~= all);
    results
}

/// The results that are written: the first ones, up to a limit, or nothing if no
/// test passed.
pub fn written_results(results: Vec<TestResult>) -> (written: Option<Vec<TestResult>>)
    ensures
        match written {
            Some(first) => results@.len() > 0 && first@ == results@.take(
                if results@.len() < IPV4_OUTPUT_COUNT {
                    results@.len() as int
                } else {
                    IPV4_OUTPUT_COUNT as int
                },
            ),
            None => results@.len() == 0,
        },
{
    if results.len() == 0 {
        return None;
    }
    let mut first: Vec<TestResult> = results;
    let n: usize = first.len();
    if n > IPV4_OUTPUT_COUNT {
        first.truncate(IPV4_OUTPUT_COUNT);
    }
    Some(first)
}

/// The records of the tested and of the listed addresses, in the same order.
pub fn make_output(results: &Vec<TestResult>, listed: &Vec<u128>) -> (output: CloudflareOutput)
    ensures
        output.ipv4@.len() == results@.len(),
        forall|i: int|
            0 <= i < results@.len() ==> is_record_of(#[trigger] output.ipv4@[i], results@[i]),
        output.ipv6@.len() == listed@.len(),
        forall|i: int|
            0 <= i < listed@.len() ==> is_ipv6_record_of(#[trigger] output.ipv6@[i], listed@[i]),
{
    let mut ipv4: Vec<IpRecord> = Vec::new();
    for i in 0..results.len()
        invariant
            ipv4@.len() == i,
            forall|k: int| 0 <= k < i ==> is_record_of(#[trigger] ipv4@[k], results@[k]),
    {
        ipv4.push(make_record(&results[i]));
    }
    let mut ipv6: Vec<IpRecord> = Vec::new();
    for i in 0..listed.len()
        invariant
            ipv6@.len() == i,
            forall|k: int| 0 <= k < i ==> is_ipv6_record_of(#[trigger] ipv6@[k], listed@[k]),
    {
        ipv6.push(make_ipv6_record(listed[i]));
    }
    CloudflareOutput { ipv4, ipv6 }
}

/// The address in a record reads back as the address that the record is of.
pub proof fn law_record_names_address(record: IpRecord, result: TestResult)
    requires
        is_record_of(record, result),
    ensures
        ip_value(record.ip@) == Some(result.ip),
{
    law_ip_round_trip(result.ip);
}

/// Whether a text is the local time in Tehran, to the second, at a second that the
/// clock of the machine read.
pub open spec fn is_present_time(text: Seq<char>) -> bool {
    exists|reading: Reading|
        has_date(#[trigger] reading.at()) && text == tehran_text(
            reading.at(),
            "%Y-%m-%d %H:%M:%S"@,
        )
}

/// The present time is the one that the clock read, not that of any other second.
pub proof fn law_present_time(text: String)
    requires
        call_ensures(current_tehran_time, (), text),
    ensures
        is_present_time(text@),
{
}

/// A record of a test has all that was found in it, and the present time; its
/// address reads back as the tested one.
pub proof fn law_record_of_result(result: TestResult, record: IpRecord)
    requires
        call_ensures(make_record, (&result,), record),
    ensures
        ip_value(record.ip@) == Some(result.ip),
        record.latency == result.latency,
        record.colo@ == result.colo@,
        record.loss == 0,
        record.speed == 0,
        record.line@ == "CF"@,
        record.node@ == "CFScanner"@,
        is_present_time(record.time@),
{
    law_ip_round_trip(result.ip);
}

/// A record of a listed address has the address, which reads back, and the present
/// time; nothing was measured of it.
pub proof fn law_record_of_listed(address: u128, record: IpRecord)
    requires
        call_ensures(make_ipv6_record, (address,), record),
    ensures
        ip_value(record.ip@) == Some(IpAddr::V6(address)),
        record.latency == 0,
        record.colo@ == "Default"@,
        record.loss == 0,
        record.speed == 0,
        record.line@ == "CF"@,
        record.node@ == "CFScanner"@,
        is_present_time(record.time@),
{
    law_ip_round_trip(IpAddr::V6(address));
}

/// The results of two lists of tests together are those of the first and then those
/// of the second; a test that passed gives its result, and another gives nothing.
pub proof fn law_passed_in_order(
    a: Seq<Option<TestResult>>,
    b: Seq<Option<TestResult>>,
    outcome: Option<TestResult>,
)
    ensures
        passed(a + b) == passed(a) + passed(b),
        passed(seq![outcome]) == match outcome {
            Some(result) => seq![result],
            None => Seq::empty(),
        },
    decreases b.len(),
{
    if b.len() == 0 {
        assert(a + b =~= a);
        assert(passed(a) + passed(b) =~= passed(a));
    } else {
        law_passed_in_order(a, b.drop_last(), outcome);
        assert((a + b).drop_last() =~= a + b.drop_last());
        assert((a + b).last() == b.last());
        assert(passed(a + b) =~= passed(a) + passed(b));
    }
    assert(seq![outcome].drop_last() =~= Seq::empty());
    assert(passed(Seq::empty()) =~= Seq::empty());
    assert(passed(seq![outcome]) =~= match outcome {
        Some(result) => seq![result],
        None => Seq::empty(),
    });
}

/// Results are written from the first on, all of them up to twenty-five; nothing is
/// written only where there is none.
pub proof fn law_first_results_written(
    results: Vec<TestResult>,
    written: Option<Vec<TestResult>>,
)
    requires
        call_ensures(written_results, (results,), written),
    ensures
        written is None <==> results@.len() == 0,
        written matches Some(first) ==> {
            &&& first@.len() <= 25
            &&& first@.len() == results@.len() || (first@.len() == 25 && results@.len() > 25)
            &&& forall|i: int| 0 <= i < first@.len() ==> #[trigger] first@[i] == results@[i]
        },
{
}

/// Every result and every listed address has its record, in order, and no record is
/// of anything else.
pub proof fn law_record_for_each_address(
    results: Vec<TestResult>,
    listed: Vec<u128>,
    output: CloudflareOutput,
)
    requires
        call_ensures(make_output, (&results, &listed), output),
    ensures
        output.ipv4@.len() == results@.len(),
        forall|i: int|
            0 <= i < results@.len() ==> {
                let record = #[trigger] output.ipv4@[i];
                &&& ip_value(record.ip@) == Some(results@[i].ip)
                &&& record.latency == results@[i].latency
                &&& record.colo@ == results@[i].colo@
                &&& is_present_time(record.time@)
            },
        output.ipv6@.len() == listed@.len(),
        forall|i: int|
            0 <= i < listed@.len() ==> {
                let record = #[trigger] output.ipv6@[i];
                &&& ip_value(record.ip@) == Some(IpAddr::V6(listed@[i]))
                &&& record.latency == 0
                &&& record.colo@ == "Default"@
                &&& is_present_time(record.time@)
            },
{
    assert forall|i: int| 0 <= i < results@.len() implies ip_value(
        (#[trigger] output.ipv4@[i]).ip@,
    ) == Some(results@[i].ip) by {
        assert(is_record_of(output.ipv4@[i], results@[i]));
        law_ip_round_trip(results@[i].ip);
    }
    assert forall|i: int| 0 <= i < listed@.len() implies ip_value(
        (#[trigger] output.ipv6@[i]).ip@,
    ) == Some(IpAddr::V6(listed@[i])) by {
        assert(is_ipv6_record_of(output.ipv6@[i], listed@[i]));
        law_ip_round_trip(IpAddr::V6(listed@[i]));
    }
}

} // verus!
