//! The reply that tells how a request arrived, and what it says of a proxy.

use vstd::prelude::*;

#[allow(unused_imports)]
use crate::address::ip_value;
use crate::address::{parse_ip, IpAddr};
use crate::ranges::is_success_code;
#[allow(unused_imports)]
use crate::ranges::success_code;

verus! {

/// What the reply tells of the place from which the request came.
#[derive(Debug)]
pub struct WorkerCf {
    /// The network's owner.
    pub isp: Option<String>,
    /// The city.
    pub city: Option<String>,
    /// The region.
    pub region: Option<String>,
    /// The country's code.
    pub country: Option<String>,
}

/// Why an address does not pass the first check.
#[derive(Debug)]
pub enum CheckError {
    /// It is no address; holds the text.
    InvalidIp(String),
    /// The connection could not be set up; holds the cause.
    Client(String),
    /// There was no reply; holds the cause.
    Request(String),
    /// The status of the reply is no success; holds the status as text.
    Status(String),
    /// The body of the reply could not be read, or is no JSON; holds the cause.
    NotJson(String),
    /// The reply does not tell from which address the request came.
    NoClientIp,
    /// The request came from the machine itself; holds its address.
    SelfIp(String),
}

/// The content of an optional text.
pub open spec fn content(text: Option<String>) -> Option<Seq<char>> {
    match text {
        Some(text) => Some(text@),
        None => None,
    }
}

/// What the program says of an address that does not pass the first check.
pub open spec fn check_error_text(error: CheckError) -> Seq<char> {
    match error {
        CheckError::InvalidIp(ip) => "invalid IP: "@ + ip@,
        CheckError::Client(cause) => cause@,
        CheckError::Request(cause) => "meta request failed: "@ + cause@,
        CheckError::Status(status) => "meta returned HTTP "@ + status@,
        CheckError::NotJson(cause) => "meta JSON parse failed: "@ + cause@,
        CheckError::NoClientIp => "no clientIp field in /meta response"@,
        CheckError::SelfIp(ip) => "clientIp == self IP ("@ + ip@
            + "), not going through a proxy"@,
    }
}

impl CheckError {
    /// What the program says of an address that does not pass the first check.
    pub fn message(&self) -> (text: String)
        ensures
            text@ == check_error_text(*self),
    {
        match self {
            CheckError::InvalidIp(ip) => {
                let mut text: String = "invalid IP: ".to_string();
                text.append(ip.as_str());
                text
            },
            CheckError::Client(cause) => cause.clone(),
            CheckError::Request(cause) => {
                let mut text: String = "meta request failed: ".to_string();
                text.append(cause.as_str());
                text
            },
            CheckError::Status(status) => {
                let mut text: String = "meta returned HTTP ".to_string();
                text.append(status.as_str());
                text
            },
            CheckError::NotJson(cause) => {
                let mut text: String = "meta JSON parse failed: ".to_string();
                text.append(cause.as_str());
                text
            },
            CheckError::NoClientIp => "no clientIp field in /meta response".to_string(),
            CheckError::SelfIp(ip) => {
                let mut text: String = "clientIp == self IP (".to_string();
                text.append(ip.as_str());
                text.append("), not going through a proxy");
                text
            },
        }
    }
}

/// Whether two errors are of one kind and hold the same text.
pub open spec fn same_check_error(a: CheckError, b: CheckError) -> bool {
    match (a, b) {
        (CheckError::InvalidIp(x), CheckError::InvalidIp(y)) => x@ == y@,
        (CheckError::Client(x), CheckError::Client(y)) => x@ == y@,
        (CheckError::Request(x), CheckError::Request(y)) => x@ == y@,
        (CheckError::Status(x), CheckError::Status(y)) => x@ == y@,
        (CheckError::NotJson(x), CheckError::NotJson(y)) => x@ == y@,
        (CheckError::NoClientIp, CheckError::NoClientIp) => true,
        (CheckError::SelfIp(x), CheckError::SelfIp(y)) => x@ == y@,
        _ => false,
    }
}

/// Texts that are equal after the same start are equal.
proof fn lemma_same_rest(start: Seq<char>, x: Seq<char>, y: Seq<char>)
    requires
        start + x == start + y,
    ensures
        x == y,
{
    assert((start + x).skip(start.len() as int) =~= x);
    assert((start + y).skip(start.len() as int) =~= y);
}

/// What is said tells the errors apart: the same is said of two only if they are
/// of one kind with the same cause. A connection that could not be set up is told
/// by its cause alone, and is compared with its like only.
pub proof fn law_check_error_text(a: CheckError, b: CheckError)
    requires
        a is Client <==> b is Client,
        check_error_text(a) == check_error_text(b),
    ensures
        same_check_error(a, b),
{
    reveal_strlit("invalid IP: ");
    reveal_strlit("meta request failed: ");
    reveal_strlit("meta returned HTTP ");
    reveal_strlit("meta JSON parse failed: ");
    reveal_strlit("no clientIp field in /meta response");
    reveal_strlit("clientIp == self IP (");
    let (s, t) = (check_error_text(a), check_error_text(b));
    assert(s[0] == t[0] && s[5] == t[5] && s[7] == t[7]);
    match (a, b) {
        (CheckError::InvalidIp(x), CheckError::InvalidIp(y)) => {
            lemma_same_rest("invalid IP: "@, x@, y@);
        },
        (CheckError::Request(x), CheckError::Request(y)) => {
            lemma_same_rest("meta request failed: "@, x@, y@);
        },
        (CheckError::Status(x), CheckError::Status(y)) => {
            lemma_same_rest("meta returned HTTP "@, x@, y@);
        },
        (CheckError::NotJson(x), CheckError::NotJson(y)) => {
            lemma_same_rest("meta JSON parse failed: "@, x@, y@);
        },
        (CheckError::SelfIp(x), CheckError::SelfIp(y)) => {
            let (start, end) = ("clientIp == self IP ("@, "), not going through a proxy"@);
            assert(start + x@ + end =~= start + (x@ + end));
            assert(start + y@ + end =~= start + (y@ + end));
            lemma_same_rest(start, x@ + end, y@ + end);
            assert((x@ + end).len() == (y@ + end).len());
            assert((x@ + end).take(x@.len() as int) =~= x@);
            assert((y@ + end).take(y@.len() as int) =~= y@);
        },
        _ => {},
    }
}

/// Reads the address that is to be checked.
pub fn check_target(ip: &str) -> (result: Result<IpAddr, CheckError>)
    ensures
        match result {
            Ok(address) => ip_value(ip@) == Some(address),
            Err(error) => {
                &&& ip_value(ip@) is None
                &&& error matches CheckError::InvalidIp(text)
                &&& text@ == ip@
            },
        },
{
    match parse_ip(ip) {
        Some(address) => Ok(address),
        None => Err(CheckError::InvalidIp(ip.to_string())),
    }
}

/// Checks the status of the reply, before its body is read.
pub fn check_meta_status(status: u16, status_text: String) -> (result: Result<(), CheckError>)
    ensures
        match result {
            Ok(()) => success_code(status),
            Err(error) => !success_code(status) && error == CheckError::Status(status_text),
        },
{
    if is_success_code(status) {
        Ok(())
    } else {
        Err(CheckError::Status(status_text))
    }
}

/// A JSON value.
#[verifier::external_type_specification]
#[verifier::external_body]
pub struct ExJsonValue(serde_json::Value);

/// The members of a JSON object whose values are strings; empty for a value that
/// is no object.
pub uninterp spec fn text_members(value: serde_json::Value) -> Map<Seq<char>, Seq<char>>;

/// The members of the JSON object that bytes write whose values are strings; where
/// the bytes write no JSON value, what is said of that.
pub uninterp spec fn json_members(body: Seq<u8>) -> Result<Map<Seq<char>, Seq<char>>, Seq<char>>;

/// `serde_json::from_slice` to a `serde_json::Value`: the JSON value that bytes
/// write, or its error as text. Which bytes write a value, what members it has, and
/// what the error says where they write none, is a function of the bytes, with the
/// name `json_members`.
#[verifier::external_body]
fn parse_json(body: &[u8]) -> (result: Result<serde_json::Value, String>)
    ensures
        match result {
            Ok(value) => json_members(body@) == Ok::<Map<Seq<char>, Seq<char>>, Seq<char>>(
                text_members(value),
            ),
            Err(cause) => json_members(body@) == Err::<Map<Seq<char>, Seq<char>>, Seq<char>>(cause@),
        },
{
    serde_json::from_slice(body).map_err(|error: serde_json::Error| error.to_string())
}

/// `serde_json::Value::get` with a string, then `serde_json::Value::as_str`: the
/// value of an object's member, if it has that member and its value is a string.
#[verifier::external_body]
fn text_member(value: &serde_json::Value, name: &str) -> (result: Option<String>)
    ensures
        match result {
            Some(text) => text_members(*value).contains_key(name@) && text_members(*value)[name@]
                == text@,
            None => !text_members(*value).contains_key(name@),
        },
{
    value.get(name).and_then(serde_json::Value::as_str).map(String::from)
}

/// The member with a name, if there is one.
pub open spec fn member(members: Map<Seq<char>, Seq<char>>, name: Seq<char>) -> Option<Seq<char>> {
    if members.contains_key(name) {
        Some(members[name])
    } else {
        None
    }
}

/// Whether the check of where a request came from ends in `result`: an error if
/// that is not told or is the machine itself, else the place as it was told.
pub open spec fn origin_judged(
    client_ip: Option<Seq<char>>,
    self_ip: Seq<char>,
    place: WorkerCf,
    result: Result<WorkerCf, CheckError>,
) -> bool {
    match client_ip {
        None => result == Err::<WorkerCf, CheckError>(CheckError::NoClientIp),
        Some(ip) => if ip.len() == 0 {
            result == Err::<WorkerCf, CheckError>(CheckError::NoClientIp)
        } else if ip == self_ip {
            result matches Err(CheckError::SelfIp(own)) && own@ == self_ip
        } else {
            result == Ok::<WorkerCf, CheckError>(place)
        },
    }
}

/// Checks where a request came from: the reply must tell it, and it must not be
/// the machine itself.
pub fn judge_origin(client_ip: Option<String>, self_ip: &str, place: WorkerCf) -> (result: Result<
    WorkerCf,
    CheckError,
>)
    ensures
        origin_judged(content(client_ip), self_ip@, place, result),
{
    match client_ip {
        None => Err(CheckError::NoClientIp),
        Some(ip) => {
            if ip.as_str().is_empty() {
                return Err(CheckError::NoClientIp);
            }
            let own: String = self_ip.to_string();
            if ip == own {
                Err(CheckError::SelfIp(own))
            } else {
                Ok(place)
            }
        },
    }
}

/// Whether a place is the one that the members of a reply tell.
pub open spec fn place_told(members: Map<Seq<char>, Seq<char>>, place: WorkerCf) -> bool {
    &&& content(place.isp) == member(members, "asOrganization"@)
    &&& content(place.city) == member(members, "city"@)
    &&& content(place.region) == member(members, "region"@)
    &&& content(place.country) == member(members, "country"@)
}

/// Whether the check of a reply's body ends in `result`.
pub open spec fn meta_judged(
    members: Result<Map<Seq<char>, Seq<char>>, Seq<char>>,
    self_ip: Seq<char>,
    result: Result<WorkerCf, CheckError>,
) -> bool {
    match members {
        Err(cause) => result matches Err(CheckError::NotJson(text)) && text@ == cause,
        Ok(members) => exists|place: WorkerCf| #[trigger]
            place_told(members, place) && origin_judged(
                member(members, "clientIp"@),
                self_ip,
                place,
                result,
            ),
    }
}

/// Checks the body of the reply.
pub fn judge_meta(body: &[u8], self_ip: &str) -> (result: Result<WorkerCf, CheckError>)
    ensures
        meta_judged(json_members(body@), self_ip@, result),
{
    match parse_json(body) {
        Err(cause) => Err(CheckError::NotJson(cause)),
        Ok(value) => {
            let client_ip: Option<String> = text_member(&value, "clientIp");
            let place: WorkerCf = WorkerCf {
                isp: text_member(&value, "asOrganization"),
                city: text_member(&value, "city"),
                region: text_member(&value, "region"),
                country: text_member(&value, "country"),
            };
            assert(place_told(text_members(value), place));
            judge_origin(client_ip, self_ip, place)
        },
    }
}

/// A reply passes if and only if it is JSON and tells an address that is not
/// empty and not the machine's own.
pub proof fn law_meta_passes(
    members: Result<Map<Seq<char>, Seq<char>>, Seq<char>>,
    self_ip: Seq<char>,
    result: Result<WorkerCf, CheckError>,
)
    requires
        meta_judged(members, self_ip, result),
    ensures
        result is Ok <==> {
            &&& members matches Ok(found)
            &&& member(found, "clientIp"@) matches Some(ip)
            &&& ip.len() > 0
            &&& ip != self_ip
        },
        result matches Ok(place) ==> place_told(members->Ok_0, place),
{
}

/// Whether an optional text is the member with a name, or nothing where there is no
/// such member.
pub open spec fn is_member(
    text: Option<String>,
    members: Map<Seq<char>, Seq<char>>,
    name: Seq<char>,
) -> bool {
    match text {
        Some(text) => members.dom().contains(name) && members[name] == text@,
        None => !members.dom().contains(name),
    }
}

/// A reply that passes tells the place in its members: the network's owner in
/// `asOrganization`, the city in `city`, the region in `region`, the country in
/// `country`. It passes if it tells in `clientIp` an address that is not empty and
/// not the machine's own.
pub proof fn law_reply_tells_place(
    body: &[u8],
    self_ip: &str,
    result: Result<WorkerCf, CheckError>,
)
    requires
        call_ensures(judge_meta, (body, self_ip), result),
    ensures
        json_members(body@) matches Ok(members) ==> {
            let told = members.dom().contains("clientIp"@);
            let ip = members["clientIp"@];
            &&& result is Ok <==> told && ip.len() > 0 && ip != self_ip@
            &&& result matches Ok(place) ==> {
                &&& is_member(place.isp, members, "asOrganization"@)
                &&& is_member(place.city, members, "city"@)
                &&& is_member(place.region, members, "region"@)
                &&& is_member(place.country, members, "country"@)
            }
            &&& told && ip.len() > 0 && ip == self_ip@ ==> (result matches Err(
                CheckError::SelfIp(own),
            ) && own@ == ip)
            &&& !told || ip.len() == 0 ==> result == Err::<WorkerCf, CheckError>(
                CheckError::NoClientIp,
            )
        },
        json_members(body@) matches Err(cause) ==> (result matches Err(CheckError::NotJson(text))
            && text@ == cause),
{
}

/// Replies that pass and have the same member tell the same of it; replies that
/// have different ones tell different things.
pub proof fn law_places_differ_as_replies(
    first_body: &[u8],
    second_body: &[u8],
    self_ip: &str,
    first: Result<WorkerCf, CheckError>,
    second: Result<WorkerCf, CheckError>,
)
    requires
        call_ensures(judge_meta, (first_body, self_ip), first),
        call_ensures(judge_meta, (second_body, self_ip), second),
        first is Ok,
        second is Ok,
    ensures
        ({
            let (a, b) = (json_members(first_body@)->Ok_0, json_members(second_body@)->Ok_0);
            let (x, y) = (first->Ok_0, second->Ok_0);
            let same = |name: Seq<char>|
                a.dom().contains(name) == b.dom().contains(name) && (a.dom().contains(name)
                    ==> a[name] == b[name]);
            &&& content(x.isp) == content(y.isp) <==> same("asOrganization"@)
            &&& content(x.city) == content(y.city) <==> same("city"@)
            &&& content(x.region) == content(y.region) <==> same("region"@)
            &&& content(x.country) == content(y.country) <==> same("country"@)
        }),
{
    law_reply_tells_place(first_body, self_ip, first);
    law_reply_tells_place(second_body, self_ip, second);
}

/// The status passes from 200 to 299, and is told otherwise.
pub proof fn law_meta_status(status: u16, status_text: String, result: Result<(), CheckError>)
    requires
        call_ensures(check_meta_status, (status, status_text), result),
    ensures
        result is Ok <==> 200 <= status <= 299,
        result matches Err(error) ==> check_error_text(error) == "meta returned HTTP "@
            + status_text@,
{
}

/// The text of an address can be checked, and is that address.
pub proof fn law_target_is_address(address: IpAddr, ip: &str, result: Result<IpAddr, CheckError>)
    requires
        ip@ == crate::address::ip_text(address),
        call_ensures(check_target, (ip,), result),
    ensures
        result == Ok::<IpAddr, CheckError>(address),
{
    crate::address::law_ip_round_trip(address);
}

/// What is said of an error tells its cause whole.
pub proof fn law_error_tells_cause(cause: String)
    ensures
        check_error_text(CheckError::InvalidIp(cause)) == "invalid IP: "@ + cause@,
        check_error_text(CheckError::Client(cause)) == cause@,
        check_error_text(CheckError::Request(cause)) == "meta request failed: "@ + cause@,
        check_error_text(CheckError::Status(cause)) == "meta returned HTTP "@ + cause@,
        check_error_text(CheckError::NotJson(cause)) == "meta JSON parse failed: "@ + cause@,
        check_error_text(CheckError::NoClientIp) == "no clientIp field in /meta response"@,
        check_error_text(CheckError::SelfIp(cause)) == "clientIp == self IP ("@ + cause@
            + "), not going through a proxy"@,
{
}

} // verus!
