//! The request for an edge server's trace page, and the judgement of its reply.

use vstd::prelude::*;

use crate::address::IpAddr;
#[allow(unused_imports)]
use crate::number::decimal_value;
use crate::number::parse_decimal;
#[allow(unused_imports)]
use crate::text::{
    contents, find, is_space, law_find, law_lines, law_lines_concat, law_trim, law_trimmed,
    law_words, lemma_lower, lines, lower, spelled_at, starts_with, trim, words,
};
use crate::text::{
    find_chars, has_prefix, lower_char, split_lines, split_words, subrange, to_chars, to_text,
    trim_chars,
};
#[allow(unused_imports)]
use vstd::utf8::{decode_utf8, encode_utf8, valid_utf8};

verus! {

/// The host that a tested address must answer for.
pub const CF_HOST: &'static str = "cloudflare.com";

/// The page that reports which data centre answered.
pub const CF_PATH: &'static str = "/cdn-cgi/trace";

/// The data centre that is named where the reply names none.
pub const DEFAULT_COLO: &'static str = "Default";

/// The most bytes of a reply that are read.
pub const MAX_RESPONSE_BYTES: u64 = 16384;

/// An address that answered as an edge server should.
#[derive(Debug)]
pub struct TestResult {
    /// The address.
    pub ip: IpAddr,
    /// The milliseconds that the whole test took.
    pub latency: u64,
    /// The data centre that answered.
    pub colo: String,
}

/// Why a reply does not count as that of an edge server.
#[derive(Clone, Copy, Debug, PartialEq, Eq, Structural)]
pub enum TraceError {
    /// The status line is missing, broken, or not a success or a redirection.
    HttpValidation,
    /// No line holds the `CF-Ray` header.
    MissingRay,
}

/// The words of the request, line by line.
pub open spec fn trace_request_text() -> Seq<char> {
    "GET "@ + CF_PATH@ + " HTTP/1.1\r\nHost: "@ + CF_HOST@
        + "\r\nUser-Agent: CFScanner/1.0\r\nConnection: close\r\nAccept: */*\r\n\r\n"@
}

/// The request that is sent to a tested address.
pub fn trace_request() -> (request: String)
    ensures
        request@ == trace_request_text(),
{
    let mut request: String = "GET ".to_string();
    request.append(CF_PATH);
    request.append(" HTTP/1.1\r\nHost: ");
    request.append(CF_HOST);
    request.append("\r\nUser-Agent: CFScanner/1.0\r\nConnection: close\r\nAccept: */*\r\n\r\n");
    request
}

/// The status code of a reply: the second word of its first line.
pub open spec fn status_code(response: Seq<char>) -> Option<nat> {
    let all = lines(response);
    if all.len() == 0 {
        None
    } else {
        let parts = words(all[0]);
        if parts.len() < 2 {
            None
        } else {
            match decimal_value(parts[1], 0xffff) {
                Ok(code) => Some(code),
                Err(_) => None,
            }
        }
    }
}

/// Whether a reply reports success or a redirection.
pub open spec fn successful(response: Seq<char>) -> bool {
    status_code(response) matches Some(code) && 200 <= code < 400
}

/// Whether the reply's status line gives a code from 200 to 399.
pub fn is_successful_http_response(response: &str) -> (answer: bool)
    ensures
        answer == successful(response@),
{
    let chars: Vec<char> = to_chars(response);
    let all: Vec<Vec<char>> = split_lines(&chars);
    assert(all@.len() == lines(response@).len());
    if all.len() == 0 {
        return false;
    }
    assert(contents(all@)[0] == all@[0]@);
    let parts: Vec<Vec<char>> = split_words(&all[0]);
    assert(parts@.len() == words(all@[0]@).len());
    if parts.len() < 2 {
        return false;
    }
    assert(contents(parts@)[1] == parts@[1]@);
    match parse_decimal(&parts[1], 0xffff) {
        Ok(status) => 200 <= status && status < 400,
        Err(_) => false,
    }
}

/// What follows `prefix` in the first line that starts with it.
pub open spec fn first_after(rows: Seq<Seq<char>>, prefix: Seq<char>) -> Option<Seq<char>>
    decreases rows.len(),
{
    if rows.len() == 0 {
        None
    } else if starts_with(rows[0], prefix) {
        Some(rows[0].skip(prefix.len() as int))
    } else {
        first_after(rows.skip(1), prefix)
    }
}

/// The data centre that a trace page names: the rest of its first `colo=` line,
/// without white space around it, unless nothing is left.
pub open spec fn colo(body: Seq<char>) -> Option<Seq<char>> {
    match first_after(lines(body), "colo="@) {
        Some(rest) => {
            let name = trim(rest);
            if name.len() > 0 {
                Some(name)
            } else {
                None
            }
        },
        None => None,
    }
}

/// The data centre that a trace page names.
pub fn parse_colo(body: &str) -> (result: Option<String>)
    ensures
        match result {
            Some(name) => colo(body@) == Some(name@),
            None => colo(body@) is None,
        },
{
    let chars: Vec<char> = to_chars(body);
    parse_colo_chars(&chars)
}

/// The data centre that a trace page names.
fn parse_colo_chars(body: &[char]) -> (result: Option<String>)
    ensures
        match result {
            Some(name) => colo(body@) == Some(name@),
            None => colo(body@) is None,
        },
{
    let rows: Vec<Vec<char>> = split_lines(body);
    let prefix: Vec<char> = to_chars("colo=");
    let ghost all = contents(rows@);
    assert(all.skip(0) =~= all);
    for i in 0..rows.len()
        invariant
            all == contents(rows@),
            all == lines(body@),
            prefix@ == "colo="@,
            first_after(all, prefix@) == first_after(all.skip(i as int), prefix@),
    {
        let line: &Vec<char> = &rows[i];
        assert(all.skip(i as int)[0] == line@);
        assert(all.skip(i as int).skip(1) =~= all.skip(i + 1));
        if has_prefix(line, &prefix) {
            let rest: Vec<char> = subrange(line, prefix.len(), line.len());
            assert(rest@ =~= line@.skip(prefix@.len() as int));
            let name: Vec<char> = trim_chars(&rest);
            return if name.len() > 0 {
                Some(to_text(&name))
            } else {
                None
            };
        }
    }
    None
}

/// `s` with its ASCII letters in lower case.
pub open spec fn lower_case(s: Seq<char>) -> Seq<char> {
    s.map_values(|c: char| lower(c))
}

/// Whether some line of the reply starts with the `CF-Ray` header's name, in any
/// mix of cases.
pub open spec fn has_ray(response: Seq<char>) -> bool {
    exists|i: int|
        0 <= i < lines(response).len() && starts_with(
            lower_case(#[trigger] lines(response)[i]),
            "cf-ray:"@,
        )
}

/// What stands between the first blank line of the reply and the second, or the
/// end.
pub open spec fn body_part(response: Seq<char>) -> Option<Seq<char>> {
    match find(response, "\r\n\r\n"@) {
        Some(i) => {
            let rest = response.skip(i + "\r\n\r\n"@.len());
            match find(rest, "\r\n\r\n"@) {
                Some(j) => Some(rest.take(j)),
                None => Some(rest),
            }
        },
        None => None,
    }
}

/// The data centre that a reply names, or the default one.
pub open spec fn response_colo(response: Seq<char>) -> Seq<char> {
    match body_part(response) {
        Some(body) => match colo(body) {
            Some(name) => name,
            None => DEFAULT_COLO@,
        },
        None => DEFAULT_COLO@,
    }
}

/// The judgement of a reply: the data centre that answered, or what is wrong.
pub open spec fn judgement(response: Seq<char>) -> Result<Seq<char>, TraceError> {
    if !successful(response) {
        Err(TraceError::HttpValidation)
    } else if !has_ray(response) {
        Err(TraceError::MissingRay)
    } else {
        Ok(response_colo(response))
    }
}

/// Whether some line starts with the `CF-Ray` header's name.
fn find_ray(response: &[char]) -> (answer: bool)
    ensures
        answer == has_ray(response@),
{
    let rows: Vec<Vec<char>> = split_lines(response);
    let prefix: Vec<char> = to_chars("cf-ray:");
    let ghost all = contents(rows@);
    for i in 0..rows.len()
        invariant
            all == contents(rows@),
            all == lines(response@),
            prefix@ == "cf-ray:"@,
            forall|k: int|
                0 <= k < i ==> !starts_with(lower_case(#[trigger] all[k]), "cf-ray:"@),
    {
        let row: &Vec<char> = &rows[i];
        let mut line: Vec<char> = Vec::new();
        for k in 0..row.len()
            invariant
                line@ =~= lower_case(row@).take(k as int),
        {
            line.push(lower_char(row[k]));
        }
        assert(line@ =~= lower_case(all[i as int]));
        if has_prefix(&line, &prefix) {
            return true;
        }
    }
    false
}

/// The data centre that a reply names, or the default one.
fn find_colo(response: &[char]) -> (name: String)
    ensures
        name@ == response_colo(response@),
{
    let blank: Vec<char> = to_chars("\r\n\r\n");
    let n: usize = response.len();
    match find_chars(response, &blank) {
        Some(i) => {
            let rest: Vec<char> = subrange(response, i + blank.len(), n);
            assert(rest@ =~= response@.skip(i + blank@.len()));
            let body: Vec<char> = match find_chars(&rest, &blank) {
                Some(j) => subrange(&rest, 0, j),
                None => subrange(&rest, 0, rest.len()),
            };
            assert(rest@.subrange(0, rest@.len() as int) =~= rest@);
            assert(body_part(response@) == Some(body@)) by {
                if let Some(j) = find(rest@, blank@) {
                    assert(rest@.subrange(0, j) =~= rest@.take(j));
                }
            }
            match parse_colo_chars(&body) {
                Some(name) => name,
                None => DEFAULT_COLO.to_string(),
            }
        },
        None => DEFAULT_COLO.to_string(),
    }
}

/// Judges the text of a reply: the data centre that answered, or what is wrong.
pub fn judge_text(response: &str) -> (result: Result<String, TraceError>)
    ensures
        match result {
            Ok(name) => judgement(response@) == Ok::<Seq<char>, TraceError>(name@),
            Err(error) => judgement(response@) == Err::<Seq<char>, TraceError>(error),
        },
{
    if !is_successful_http_response(response) {
        return Err(TraceError::HttpValidation);
    }
    let chars: Vec<char> = to_chars(response);
    if !find_ray(&chars) {
        return Err(TraceError::MissingRay);
    }
    Ok(find_colo(&chars))
}

/// What `String::from_utf8_lossy` makes of some bytes.
pub uninterp spec fn lossy_text(bytes: Seq<u8>) -> Seq<char>;

/// `String::from_utf8_lossy`: the text of `bytes`, with a replacement character
/// for what is not UTF-8. Bytes that are UTF-8 give the text that they encode.
/// Which parts of other bytes are replaced is left to the name `lossy_text`.
#[verifier::external_body]
fn decode_lossy(bytes: &[u8]) -> (text: String)
    ensures
        text@ == lossy_text(bytes@),
        valid_utf8(bytes@) ==> text@ == decode_utf8(bytes@),
{
    String::from_utf8_lossy(bytes).into_owned()
}

/// Judges a reply as it came over the connection.
pub fn judge_response(response: &[u8]) -> (result: Result<String, TraceError>)
    ensures
        match result {
            Ok(name) => judgement(lossy_text(response@)) == Ok::<Seq<char>, TraceError>(name@),
            Err(error) => judgement(lossy_text(response@)) == Err::<Seq<char>, TraceError>(error),
        },
        valid_utf8(response@) ==> lossy_text(response@) == decode_utf8(response@),
{
    let text: String = decode_lossy(response);
    judge_text(text.as_str())
}

/// What the program says of a reply that was turned down.
pub open spec fn trace_error_text(error: TraceError, ip: IpAddr) -> Seq<char> {
    match error {
        TraceError::HttpValidation => "HTTP validation failed for "@ + crate::address::ip_text(ip),
        TraceError::MissingRay => "Missing CF-Ray header for "@ + crate::address::ip_text(ip),
    }
}

impl TraceError {
    /// What the program says of a reply that was turned down.
    pub fn message(&self, ip: IpAddr) -> (text: String)
        ensures
            text@ == trace_error_text(*self, ip),
    {
        let mut text: String = match self {
            TraceError::HttpValidation => "HTTP validation failed for ".to_string(),
            TraceError::MissingRay => "Missing CF-Ray header for ".to_string(),
        };
        text.append(ip.to_text().as_str());
        text
    }
}

impl TestResult {
    /// The result of a test that passed. Of the milliseconds it keeps the low
    /// sixty-four bits.
    pub fn passed(address: u32, elapsed_ms: u128, colo: String) -> (result: TestResult)
        ensures
            result.ip == IpAddr::V4(address),
            result.latency == elapsed_ms % 0x1_0000_0000_0000_0000,
            result.colo@ == colo@,
    {
        TestResult {
            ip: IpAddr::V4(address),
            latency: (elapsed_ms % 0x1_0000_0000_0000_0000) as u64,
            colo,
        }
    }
}

/// A data centre that a page names is never empty and has no white space around
/// it.
pub proof fn law_colo_is_trimmed(body: Seq<char>)
    ensures
        colo(body) matches Some(name) ==> name.len() > 0 && !is_space(name[0]) && !is_space(
            name.last(),
        ),
{
    if let Some(rest) = first_after(lines(body), "colo="@) {
        law_trimmed(rest);
    }
}

/// An accepted reply always comes with a data centre's name.
pub proof fn law_accepted_reply_has_colo(response: Seq<char>)
    ensures
        judgement(response) matches Ok(name) ==> name.len() > 0,
{
    reveal_strlit("Default");
}

/// A reply is not turned down for its status if and only if the second word of its
/// first line is a number from 200 to 399.
pub proof fn law_status_decides(response: &str, result: Result<String, TraceError>)
    requires
        call_ensures(judge_text, (response,), result),
    ensures
        result != Err::<String, TraceError>(TraceError::HttpValidation) <==> {
            &&& lines(response@).len() > 0
            &&& words(lines(response@)[0]).len() >= 2
            &&& decimal_value(words(lines(response@)[0])[1], 65535) matches Ok(code)
            &&& 200 <= code <= 399
        },
{
}

/// A status line of a version, a code and a text, ended by a line feed, counts by
/// its code alone, whatever follows it.
pub proof fn law_status_line(
    version: Seq<char>,
    code: Seq<char>,
    reason: Seq<char>,
    rest: Seq<char>,
    response: &str,
    answer: bool,
)
    requires
        version.len() > 0,
        code.len() > 0,
        forall|i: int| 0 <= i < version.len() ==> !is_space(#[trigger] version[i]),
        forall|i: int| 0 <= i < code.len() ==> !is_space(#[trigger] code[i]),
        !reason.contains('\n'),
        response@ == (version.push(' ') + (code.push(' ') + reason)).push('\n') + rest,
        call_ensures(is_successful_http_response, (response,), answer),
    ensures
        answer <==> (decimal_value(code, 65535) matches Ok(number) && 200 <= number <= 399),
{
    let row = version.push(' ') + (code.push(' ') + reason);
    assert(!row.contains('\n')) by {
        if row.contains('\n') {
            let k = choose|k: int| 0 <= k < row.len() && row[k] == '\n';
            if k < version.len() {
                assert(is_space(version[k]));
            } else if version.len() < k <= version.len() + code.len() {
                assert(is_space(code[k - version.len() - 1]));
            } else if k > version.len() + code.len() + 1 {
                assert(reason[k - version.len() - code.len() - 2] == '\n');
            }
        }
    }
    law_lines(row, rest);
    let kept = if reason.len() > 0 && reason.last() == '\r' {
        reason.drop_last()
    } else {
        reason
    };
    let first = version.push(' ') + (code.push(' ') + kept);
    assert(lines(response@)[0] =~= first);
    law_words(version, ' ', code.push(' ') + kept);
    law_words(code, ' ', kept);
    assert(words(first) =~= seq![version, code] + words(kept));
}

/// Whether a line starts with `cf-ray:`, in any mix of cases.
pub open spec fn is_ray_line(line: Seq<char>) -> bool {
    &&& line.len() >= 7
    &&& line[0] == 'c' || line[0] == 'C'
    &&& line[1] == 'f' || line[1] == 'F'
    &&& line[2] == '-'
    &&& line[3] == 'r' || line[3] == 'R'
    &&& line[4] == 'a' || line[4] == 'A'
    &&& line[5] == 'y' || line[5] == 'Y'
    &&& line[6] == ':'
}

/// The header's name in lower case is spelled at the start of such lines, and of
/// no others.
proof fn lemma_ray_line(line: Seq<char>)
    ensures
        starts_with(lower_case(line), "cf-ray:"@) <==> is_ray_line(line),
{
    reveal_strlit("cf-ray:");
    let name = "cf-ray:"@;
    law_find(lower_case(line), name, 0);
    assert forall|c: char| #![trigger lower(c)]
        (lower(c) == 'c' <==> c == 'c' || c == 'C') && (lower(c) == 'f' <==> c == 'f' || c == 'F')
            && (lower(c) == 'r' <==> c == 'r' || c == 'R') && (lower(c) == 'a' <==> c == 'a' || c
            == 'A') && (lower(c) == 'y' <==> c == 'y' || c == 'Y') && (lower(c) == '-' <==> c
            == '-') && (lower(c) == ':' <==> c == ':') by {
        lemma_lower(c);
    }
    assert(name.len() == 7);
    if line.len() >= 7 {
        assert(forall|k: int| 0 <= k < line.len() ==> lower_case(line)[k] == lower(line[k]));
        if spelled_at(lower_case(line), name, 0) {
            assert(lower_case(line)[0] == name[0]);
            assert(lower_case(line)[1] == name[1]);
            assert(lower_case(line)[2] == name[2]);
            assert(lower_case(line)[3] == name[3]);
            assert(lower_case(line)[4] == name[4]);
            assert(lower_case(line)[5] == name[5]);
            assert(lower_case(line)[6] == name[6]);
        }
        if is_ray_line(line) {
            assert forall|k: int| 0 <= k < 7 implies lower_case(line)[0 + k]
                == #[trigger] name[k] by {
                assert(k == 0 || k == 1 || k == 2 || k == 3 || k == 4 || k == 5 || k == 6);
            }
        }
    }
}

/// A reply whose status passes is accepted if some line, wherever it stands, starts
/// with the header's name, and lacks the header if none does.
pub proof fn law_ray_on_any_line(response: &str, result: Result<String, TraceError>)
    requires
        call_ensures(judge_text, (response,), result),
        result != Err::<String, TraceError>(TraceError::HttpValidation),
    ensures
        forall|i: int|
            0 <= i < lines(response@).len() && is_ray_line(#[trigger] lines(response@)[i])
                ==> result is Ok,
        (forall|i: int|
            0 <= i < lines(response@).len() ==> !is_ray_line(#[trigger] lines(response@)[i]))
            ==> result == Err::<String, TraceError>(TraceError::MissingRay),
{
    assert forall|line: Seq<char>| #[trigger]
        starts_with(lower_case(line), "cf-ray:"@) <==> is_ray_line(line) by {
        lemma_ray_line(line);
    }
    assert forall|i: int|
        0 <= i < lines(response@).len() && is_ray_line(
            #[trigger] lines(response@)[i],
        ) implies has_ray(response@) by {
        assert(starts_with(lower_case(lines(response@)[i]), "cf-ray:"@));
    }
}

/// Further lines after the status line do not make a reply be turned down.
pub proof fn law_further_headers(
    status: Seq<char>,
    more: Seq<char>,
    rest: Seq<char>,
    short: &str,
    long: &str,
    first: Result<String, TraceError>,
    second: Result<String, TraceError>,
)
    requires
        status.len() > 0,
        status.last() == '\n',
        more.len() > 0,
        more.last() == '\n',
        short@ == status + rest,
        long@ == status + more + rest,
        call_ensures(judge_text, (short,), first),
        call_ensures(judge_text, (long,), second),
        first is Ok,
    ensures
        second is Ok,
{
    law_lines_concat(status, rest);
    law_lines_concat(status + more, rest);
    law_lines_concat(status, more);
    let front = status.drop_last();
    assert(lines(status).len() > 0) by {
        if front.contains('\n') {
            lemma_some_line(status);
        } else {
            law_lines(front, Seq::empty());
            assert(front.push('\n') + Seq::<char>::empty() =~= status);
        }
    }
    assert(lines(long@)[0] == lines(short@)[0]);
    let i = choose|i: int|
        0 <= i < lines(short@).len() && starts_with(
            lower_case(#[trigger] lines(short@)[i]),
            "cf-ray:"@,
        );
    if i < lines(status).len() {
        assert(lines(long@)[i] == lines(short@)[i]);
    } else {
        let k = i + lines(more).len();
        assert(lines(long@)[k] == lines(short@)[i]);
    }
}

/// A text that ends in a line feed has a line.
proof fn lemma_some_line(s: Seq<char>)
    requires
        s.len() > 0,
        s.last() == '\n',
    ensures
        lines(s).len() > 0,
    decreases s.len(),
{
    let front = s.drop_last();
    if front.contains('\n') {
        let k = choose|k: int| 0 <= k < front.len() && front[k] == '\n';
        let (a, b) = (s.take(k + 1), s.skip(k + 1));
        assert(a + b =~= s);
        assert(a.last() == '\n');
        assert(b.last() == '\n');
        law_lines_concat(a, b);
        lemma_some_line(b);
    } else {
        law_lines(front, Seq::empty());
        assert(front.push('\n') + Seq::<char>::empty() =~= s);
    }
}

/// Whether line `i` is the first that starts with `colo=`.
pub open spec fn first_colo_line(rows: Seq<Seq<char>>, i: int) -> bool {
    &&& 0 <= i < rows.len()
    &&& spelled_at(rows[i], seq!['c', 'o', 'l', 'o', '='], 0)
    &&& forall|k: int|
        0 <= k < i ==> !spelled_at(#[trigger] rows[k], seq!['c', 'o', 'l', 'o', '='], 0)
}

/// The first line that starts with the prefix decides.
proof fn lemma_first_after(rows: Seq<Seq<char>>, i: int)
    ensures
        first_colo_line(rows, i) ==> first_after(rows, "colo="@) == Some(rows[i].skip(5)),
        (forall|k: int|
            0 <= k < rows.len() ==> !spelled_at(
                #[trigger] rows[k],
                seq!['c', 'o', 'l', 'o', '='],
                0,
            )) ==> first_after(rows, "colo="@) is None,
    decreases rows.len(),
{
    reveal_strlit("colo=");
    assert("colo="@ =~= seq!['c', 'o', 'l', 'o', '=']);
    if rows.len() > 0 {
        let rest = rows.skip(1);
        law_find(rows[0], "colo="@, 0);
        lemma_first_after(rest, i - 1);
        assert(forall|k: int| 0 <= k < rest.len() ==> #[trigger] rest[k] == rows[k + 1]);
        if i > 0 && first_colo_line(rows, i) {
            assert(!spelled_at(rows[0], seq!['c', 'o', 'l', 'o', '='], 0));
            assert forall|k: int| 0 <= k < i - 1 implies !spelled_at(
                #[trigger] rest[k],
                seq!['c', 'o', 'l', 'o', '='],
                0,
            ) by {
                assert(!spelled_at(rows[k + 1], seq!['c', 'o', 'l', 'o', '='], 0));
            }
            assert(first_colo_line(rest, i - 1));
        }
        if forall|k: int|
            0 <= k < rows.len() ==> !spelled_at(
                #[trigger] rows[k],
                seq!['c', 'o', 'l', 'o', '='],
                0,
            ) {
            assert(!spelled_at(rows[0], seq!['c', 'o', 'l', 'o', '='], 0));
        }
    }
}

/// A page names what follows `colo=` in the first line that starts so, wherever
/// that line stands, whole but for white space at its ends. It names nothing if
/// nothing else follows, or if no line starts so.
pub proof fn law_colo_on_any_line(body: &str, result: Option<String>, i: int)
    requires
        call_ensures(parse_colo, (body,), result),
    ensures
        first_colo_line(lines(body@), i) ==> match result {
            Some(name) => name@.len() > 0 && name@ == trim(lines(body@)[i].skip(5)),
            None => trim(lines(body@)[i].skip(5)).len() == 0,
        },
        (forall|k: int|
            0 <= k < lines(body@).len() ==> !spelled_at(
                #[trigger] lines(body@)[k],
                seq!['c', 'o', 'l', 'o', '='],
                0,
            )) ==> result is None,
{
    lemma_first_after(lines(body@), i);
}

/// A page that has a name on a line of its own after `colo=`, and no such line
/// before, names exactly that.
pub proof fn law_colo_as_written(
    before: Seq<char>,
    name: Seq<char>,
    after: Seq<char>,
    body: &str,
    result: Option<String>,
)
    requires
        before.len() > 0 ==> before.last() == '\n',
        forall|k: int|
            0 <= k < lines(before).len() ==> !spelled_at(
                #[trigger] lines(before)[k],
                seq!['c', 'o', 'l', 'o', '='],
                0,
            ),
        name.len() > 0,
        !name.contains('\n'),
        !is_space(name[0]),
        !is_space(name.last()),
        body@ == before + ((seq!['c', 'o', 'l', 'o', '='] + name).push('\n') + after),
        call_ensures(parse_colo, (body,), result),
    ensures
        result matches Some(found) && found@ == name,
{
    let row = seq!['c', 'o', 'l', 'o', '='] + name;
    assert(!row.contains('\n')) by {
        if row.contains('\n') {
            let k = choose|k: int| 0 <= k < row.len() && row[k] == '\n';
            if k >= 5 {
                assert(name[k - 5] == '\n');
            }
        }
    }
    assert(row.last() == name.last());
    law_lines(row, after);
    law_lines(Seq::empty(), Seq::empty());
    let i = lines(before).len() as int;
    if before.len() > 0 {
        law_lines_concat(before, row.push('\n') + after);
    } else {
        assert(before =~= Seq::empty());
        assert(body@ =~= row.push('\n') + after);
    }
    assert(lines(body@) =~= lines(before) + (seq![row] + lines(after)));
    assert(lines(body@)[i] == row);
    assert forall|k: int| 0 <= k < i implies !spelled_at(
        #[trigger] lines(body@)[k],
        seq!['c', 'o', 'l', 'o', '='],
        0,
    ) by {
        assert(lines(body@)[k] == lines(before)[k]);
    }
    assert(first_colo_line(lines(body@), i));
    law_colo_on_any_line(body, result, i);
    assert(row.skip(5) =~= name);
    law_trim(Seq::empty(), name, Seq::empty());
    assert(Seq::<char>::empty() + name + Seq::<char>::empty() =~= name);
}

/// Whether `body` stands behind the first blank line of a text and before the
/// second, or the end.
pub open spec fn is_body(
    blank: Seq<char>,
    head: Seq<char>,
    body: Seq<char>,
    rest: Seq<char>,
    response: Seq<char>,
) -> bool {
    &&& response == head + blank + (body + rest)
    &&& forall|j: int| 0 <= j < head.len() ==> !(#[trigger] spelled_at(response, blank, j))
    &&& forall|j: int| 0 <= j < body.len() ==> !(#[trigger] spelled_at(body + rest, blank, j))
    &&& rest.len() > 0 ==> spelled_at(body + rest, blank, body.len() as int)
}

/// What stands behind the first blank line and before the second is the body.
proof fn lemma_is_body(
    blank: Seq<char>,
    head: Seq<char>,
    body: Seq<char>,
    rest: Seq<char>,
    response: Seq<char>,
)
    requires
        blank == seq!['\r', '\n', '\r', '\n'],
        is_body(blank, head, body, rest, response),
    ensures
        body_part(response) == Some(body),
{
    reveal_strlit("\r\n\r\n");
    assert("\r\n\r\n"@ =~= blank);
    let after = body + rest;
    let n = head.len() as int;
    assert(spelled_at(response, blank, n));
    law_find(response, blank, n);
    assert(response.skip(n + 4) =~= after);
    if rest.len() > 0 {
        law_find(after, blank, body.len() as int);
        assert(after.take(body.len() as int) =~= body);
    } else {
        assert(after =~= body);
        if let Some(j) = find(after, blank) {
            law_find(after, blank, j);
        }
    }
}

/// A text without a blank line has no body.
proof fn lemma_no_body(blank: Seq<char>, response: Seq<char>)
    requires
        blank == seq!['\r', '\n', '\r', '\n'],
        forall|j: int| !(#[trigger] spelled_at(response, blank, j)),
    ensures
        body_part(response) is None,
{
    reveal_strlit("\r\n\r\n");
    assert("\r\n\r\n"@ =~= blank);
    if let Some(j) = find(response, blank) {
        law_find(response, blank, j);
    }
}

/// An accepted reply has the name that its body names, or `Default` where the body
/// names none. The body is what stands behind the first blank line and before the
/// second, or the end.
pub proof fn law_body_names_colo(
    blank: Seq<char>,
    head: Seq<char>,
    body: &str,
    rest: Seq<char>,
    response: &str,
    result: Result<String, TraceError>,
    named: Option<String>,
)
    requires
        blank == seq!['\r', '\n', '\r', '\n'],
        is_body(blank, head, body@, rest, response@),
        call_ensures(judge_text, (response,), result),
        call_ensures(parse_colo, (body,), named),
        result is Ok,
    ensures
        result->Ok_0@ == match named {
            Some(name) => name@,
            None => "Default"@,
        },
{
    lemma_is_body(blank, head, body@, rest, response@);
}

/// An accepted reply without a blank line has the name `Default`.
pub proof fn law_no_body_no_name(
    blank: Seq<char>,
    response: &str,
    result: Result<String, TraceError>,
)
    requires
        blank == seq!['\r', '\n', '\r', '\n'],
        forall|j: int| !(#[trigger] spelled_at(response@, blank, j)),
        call_ensures(judge_text, (response,), result),
        result is Ok,
    ensures
        result->Ok_0@ == "Default"@,
{
    lemma_no_body(blank, response@);
}

/// The bytes that encode a text are judged as the text.
pub proof fn law_bytes_judged_as_text(
    text: &str,
    bytes: &[u8],
    first: Result<String, TraceError>,
    second: Result<String, TraceError>,
)
    requires
        bytes@ == encode_utf8(text@),
        call_ensures(judge_text, (text,), first),
        call_ensures(judge_response, (bytes,), second),
    ensures
        match (first, second) {
            (Ok(a), Ok(b)) => a@ == b@,
            (Err(a), Err(b)) => a == b,
            _ => false,
        },
{
    vstd::utf8::encode_utf8_valid_utf8(text@);
    vstd::utf8::encode_utf8_decode_utf8(text@);
}

/// A passed test keeps the address, the name and every number of milliseconds that
/// sixty-four bits hold.
pub proof fn law_passed_keeps_measure(
    address: u32,
    elapsed_ms: u128,
    colo: String,
    result: TestResult,
)
    requires
        call_ensures(TestResult::passed, (address, elapsed_ms, colo), result),
    ensures
        result.ip == IpAddr::V4(address),
        result.colo@ == colo@,
        elapsed_ms <= u64::MAX ==> result.latency == elapsed_ms,
        elapsed_ms > u64::MAX ==> (elapsed_ms - result.latency) % 0x1_0000_0000_0000_0000 == 0,
{
}

/// What is said of a reply that was turned down tells its address, which reads back.
pub proof fn law_trace_error_names_address(ip: IpAddr)
    ensures
        ({
            let text = trace_error_text(TraceError::HttpValidation, ip);
            crate::address::ip_value(text.skip("HTTP validation failed for "@.len() as int))
                == Some(ip)
        }),
        ({
            let text = trace_error_text(TraceError::MissingRay, ip);
            crate::address::ip_value(text.skip("Missing CF-Ray header for "@.len() as int))
                == Some(ip)
        }),
{
    let name = crate::address::ip_text(ip);
    let (a, b) = ("HTTP validation failed for "@, "Missing CF-Ray header for "@);
    crate::address::law_ip_round_trip(ip);
    assert((a + name).skip(a.len() as int) =~= name);
    assert((b + name).skip(b.len() as int) =~= name);
}

/// The trace page of the host is asked for, and sixteen kilobytes of the reply are
/// read.
pub proof fn law_trace_page()
    ensures
        CF_HOST@ == "cloudflare.com"@,
        trace_request_text() == "GET "@ + "/cdn-cgi/trace"@ + " HTTP/1.1\r\nHost: "@
            + "cloudflare.com"@
            + "\r\nUser-Agent: CFScanner/1.0\r\nConnection: close\r\nAccept: */*\r\n\r\n"@,
        MAX_RESPONSE_BYTES == 16 * 1024,
{
}

} // verus!
