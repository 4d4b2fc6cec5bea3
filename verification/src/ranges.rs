//! The reply of the service that publishes Cloudflare's address ranges.

use vstd::prelude::*;

verus! {

/// Where the ranges are published.
pub const CF_API: &'static str = "https://api.cloudflare.com/client/v4/ips";

/// The published ranges.
#[derive(Debug)]
pub struct CloudflareRanges {
    /// The blocks of 32-bit addresses.
    pub ipv4_cidrs: Vec<String>,
    /// The blocks of 128-bit addresses.
    pub ipv6_cidrs: Vec<String>,
}

/// The body of the reply.
#[derive(Debug)]
pub struct CloudflareApiResponse {
    /// Whether the service met the request.
    pub success: bool,
    /// The ranges.
    pub result: CloudflareRanges,
}

/// Why the reply gives no ranges.
#[derive(Debug)]
pub enum RangesError {
    /// The status of the reply is no success; holds the status as text.
    Status(String),
    /// The service says that it did not meet the request.
    NotSuccess,
}

/// Whether a status code reports success.
pub open spec fn success_code(status: u16) -> bool {
    200 <= status < 300
}

/// Whether a status code reports success.
pub fn is_success_code(status: u16) -> (answer: bool)
    ensures
        answer == success_code(status),
{
    200 <= status && status < 300
}

/// Checks the status of the reply, before its body is read.
pub fn check_ranges_status(status: u16, status_text: String) -> (result: Result<(), RangesError>)
    ensures
        match result {
            Ok(()) => success_code(status),
            Err(error) => !success_code(status) && error == RangesError::Status(status_text),
        },
{
    if is_success_code(status) {
        Ok(())
    } else {
        Err(RangesError::Status(status_text))
    }
}

/// The ranges in the body of the reply, if the service met the request.
pub fn accept_ranges(body: CloudflareApiResponse) -> (result: Result<CloudflareRanges, RangesError>)
    ensures
        result == if body.success {
            Ok::<CloudflareRanges, RangesError>(body.result)
        } else {
            Err::<CloudflareRanges, RangesError>(RangesError::NotSuccess)
        },
{
    if body.success {
        Ok(body.result)
    } else {
        Err(RangesError::NotSuccess)
    }
}

/// What the program says of a reply that gives no ranges.
pub open spec fn ranges_error_text(error: RangesError) -> Seq<char> {
    match error {
        RangesError::Status(status) => "Cloudflare IP API returned HTTP "@ + status@,
        RangesError::NotSuccess => "Cloudflare IP API returned success=false"@,
    }
}

impl RangesError {
    /// What the program says of a reply that gives no ranges.
    pub fn message(&self) -> (text: String)
        ensures
            text@ == ranges_error_text(*self),
    {
        match self {
            RangesError::Status(status) => {
                let mut text: String = "Cloudflare IP API returned HTTP ".to_string();
                text.append(status.as_str());
                text
            },
            RangesError::NotSuccess => "Cloudflare IP API returned success=false".to_string(),
        }
    }
}

/// The status passes from 200 to 299, and is told otherwise.
pub proof fn law_ranges_status(status: u16, status_text: String, result: Result<(), RangesError>)
    requires
        call_ensures(check_ranges_status, (status, status_text), result),
    ensures
        result is Ok <==> 200 <= status <= 299,
        result matches Err(error) ==> ranges_error_text(error)
            == "Cloudflare IP API returned HTTP "@ + status_text@,
{
}

/// The ranges are given if and only if the service met the request, all of them and
/// in their order.
pub proof fn law_all_ranges_accepted(
    body: CloudflareApiResponse,
    result: Result<CloudflareRanges, RangesError>,
)
    requires
        call_ensures(accept_ranges, (body,), result),
    ensures
        result is Ok <==> body.success,
        result matches Ok(ranges) ==> {
            &&& ranges.ipv4_cidrs@ == body.result.ipv4_cidrs@
            &&& ranges.ipv6_cidrs@ == body.result.ipv6_cidrs@
        },
        result matches Err(error) ==> ranges_error_text(error)
            == "Cloudflare IP API returned success=false"@,
{
}

/// The ranges are those that Cloudflare publishes.
pub proof fn law_source_of_ranges()
    ensures
        CF_API@ == "https://api.cloudflare.com/client/v4/ips"@,
{
}

} // verus!
