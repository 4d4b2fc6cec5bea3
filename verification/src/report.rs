//! The report of the proxies that passed, in Markdown.

use vstd::prelude::*;

use crate::clock::{report_times, utc_seconds, Reading, DAY, EARLIEST, LATEST};
#[allow(unused_imports)]
use crate::clock::{has_date, tehran_text, REPORT_TIME_FORMAT};
use crate::country::{country_flag, get_country_name};
#[allow(unused_imports)]
use crate::country::{flag, shown_name};
#[allow(unused_imports)]
use crate::meta::content;
#[allow(unused_imports)]
use crate::number::decimal;
use crate::number::decimal_chars;
use crate::table::{CountryGroup, ProxyInfo, ProxyTable};
#[allow(unused_imports)]
use crate::table::{entries, total, Group, ProxyEntry};
#[allow(unused_imports)]
use crate::text::occurs_at;
use crate::text::{to_chars, to_text};

verus! {

/// A character as it is written in the address of a badge.
pub open spec fn badge_char(c: char) -> Seq<char> {
    if c == ' ' {
        "%20"@
    } else if c == ':' {
        "%3A"@
    } else if c == ',' {
        "%2C"@
    } else if c == '+' {
        "%2B"@
    } else if c == '(' {
        "%28"@
    } else if c == ')' {
        "%29"@
    } else {
        seq![c]
    }
}

/// A label as it is written in the address of a badge.
pub open spec fn badge_text(label: Seq<char>) -> Seq<char>
    decreases label.len(),
{
    if label.len() == 0 {
        Seq::empty()
    } else {
        badge_text(label.drop_last()) + badge_char(label.last())
    }
}

/// Writes a label for the address of a badge.
pub fn encode_badge_label(label: &str) -> (text: String)
    ensures
        text@ == badge_text(label@),
{
    let chars: Vec<char> = to_chars(label);
    let mut text: String = String::new();
    for i in 0..chars.len()
        invariant
            chars@ == label@,
            text@ =~= badge_text(label@.take(i as int)),
    {
        assert(label@.take(i + 1).drop_last() =~= label@.take(i as int));
        let ghost before = text@;
        let c: char = chars[i];
        if c == ' ' {
            text.append("%20");
        } else if c == ':' {
            text.append("%3A");
        } else if c == ',' {
            text.append("%2C");
        } else if c == '+' {
            text.append("%2B");
        } else if c == '(' {
            text.append("%28");
        } else if c == ')' {
            text.append("%29");
        } else {
            text.push(c);
            assert(text@ =~= before + seq![c]);
        }
    }
    assert(label@.take(label@.len() as int) =~= label@);
    text
}

/// Whether `c` is written otherwise in the address of a badge.
pub open spec fn is_reserved(c: char) -> bool {
    c == ' ' || c == ':' || c == ',' || c == '+' || c == '(' || c == ')'
}

/// A label that was written for a badge holds no reserved character.
pub proof fn law_badge_is_clean(label: Seq<char>)
    ensures
        forall|i: int|
            0 <= i < badge_text(label).len() ==> !is_reserved(#[trigger] badge_text(label)[i]),
    decreases label.len(),
{
    reveal_strlit("%20");
    reveal_strlit("%3A");
    reveal_strlit("%2C");
    reveal_strlit("%2B");
    reveal_strlit("%28");
    reveal_strlit("%29");
    if label.len() > 0 {
        let before = badge_text(label.drop_last());
        let end = badge_char(label.last());
        law_badge_is_clean(label.drop_last());
        assert forall|i: int| 0 <= i < badge_text(label).len() implies !is_reserved(
            #[trigger] badge_text(label)[i],
        ) by {
            if i < before.len() {
                assert(badge_text(label)[i] == before[i]);
            } else {
                assert(badge_text(label)[i] == end[i - before.len()]);
            }
        }
    }
}

/// `s` with every `from` replaced by `to`.
pub open spec fn replaced(s: Seq<char>, from: char, to: Seq<char>) -> Seq<char>
    decreases s.len(),
{
    if s.len() == 0 {
        Seq::empty()
    } else {
        replaced(s.drop_last(), from, to) + if s.last() == from {
            to
        } else {
            seq![s.last()]
        }
    }
}

/// `s` with the reserved characters replaced one after another.
pub open spec fn replaced_in_turn(s: Seq<char>) -> Seq<char> {
    let s1 = replaced(s, ' ', "%20"@);
    let s2 = replaced(s1, ':', "%3A"@);
    let s3 = replaced(s2, ',', "%2C"@);
    let s4 = replaced(s3, '+', "%2B"@);
    let s5 = replaced(s4, '(', "%28"@);
    replaced(s5, ')', "%29"@)
}

/// Replacing goes part by part.
proof fn lemma_replaced_concat(a: Seq<char>, b: Seq<char>, from: char, to: Seq<char>)
    ensures
        replaced(a + b, from, to) == replaced(a, from, to) + replaced(b, from, to),
    decreases b.len(),
{
    if b.len() == 0 {
        assert(a + b =~= a);
        assert(replaced(a, from, to) + replaced(b, from, to) =~= replaced(a, from, to));
    } else {
        lemma_replaced_concat(a, b.drop_last(), from, to);
        assert((a + b).drop_last() =~= a + b.drop_last());
        let end = if b.last() == from {
            to
        } else {
            seq![b.last()]
        };
        assert(replaced(a + b, from, to) =~= replaced(a, from, to) + (replaced(
            b.drop_last(),
            from,
            to,
        ) + end));
    }
}

/// A text without the character stays as it is.
proof fn lemma_replaced_none(s: Seq<char>, from: char, to: Seq<char>)
    requires
        !s.contains(from),
    ensures
        replaced(s, from, to) == s,
    decreases s.len(),
{
    if s.len() == 0 {
        assert(s =~= Seq::empty());
    } else {
        let front = s.drop_last();
        assert(s[s.len() - 1] != from);
        assert(!front.contains(from)) by {
            if front.contains(from) {
                let k = choose|k: int| 0 <= k < front.len() && front[k] == from;
                assert(s[k] == from);
            }
        }
        lemma_replaced_none(front, from, to);
        assert(front + seq![s.last()] =~= s);
    }
}

/// One character stays, or gives way to its replacement.
proof fn lemma_replaced_one(c: char, from: char, to: Seq<char>)
    ensures
        replaced(seq![c], from, to) == if c == from {
            to
        } else {
            seq![c]
        },
{
    assert(seq![c].drop_last() =~= Seq::empty());
    assert(replaced(Seq::empty(), from, to) =~= Seq::empty());
    assert(Seq::<char>::empty() + to =~= to);
    assert(Seq::<char>::empty() + seq![c] =~= seq![c]);
}

/// One character is written the same if the replacements are made in turn.
proof fn lemma_badge_char_in_turn(c: char)
    ensures
        replaced_in_turn(seq![c]) == badge_char(c),
{
    reveal_strlit("%20");
    reveal_strlit("%3A");
    reveal_strlit("%2C");
    reveal_strlit("%2B");
    reveal_strlit("%28");
    lemma_replaced_one(c, ' ', "%20"@);
    lemma_replaced_one(c, ':', "%3A"@);
    lemma_replaced_one(c, ',', "%2C"@);
    lemma_replaced_one(c, '+', "%2B"@);
    lemma_replaced_one(c, '(', "%28"@);
    lemma_replaced_one(c, ')', "%29"@);
    let written = badge_char(c);
    if is_reserved(c) && c != ')' {
        lemma_replaced_none(written, ':', "%3A"@);
        lemma_replaced_none(written, ',', "%2C"@);
        lemma_replaced_none(written, '+', "%2B"@);
        lemma_replaced_none(written, '(', "%28"@);
        lemma_replaced_none(written, ')', "%29"@);
    }
}

/// Writing each character by itself gives what replacing the reserved characters
/// one after another in the whole label gives.
pub proof fn law_badge_in_turn(label: Seq<char>)
    ensures
        badge_text(label) == replaced_in_turn(label),
    decreases label.len(),
{
    if label.len() == 0 {
        assert(replaced_in_turn(label) =~= Seq::empty());
    } else {
        let (a, b) = (label.drop_last(), seq![label.last()]);
        law_badge_in_turn(a);
        lemma_badge_char_in_turn(label.last());
        assert(a + b =~= label);
        let a1 = replaced(a, ' ', "%20"@);
        let b1 = replaced(b, ' ', "%20"@);
        let a2 = replaced(a1, ':', "%3A"@);
        let b2 = replaced(b1, ':', "%3A"@);
        let a3 = replaced(a2, ',', "%2C"@);
        let b3 = replaced(b2, ',', "%2C"@);
        let a4 = replaced(a3, '+', "%2B"@);
        let b4 = replaced(b3, '+', "%2B"@);
        let a5 = replaced(a4, '(', "%28"@);
        let b5 = replaced(b4, '(', "%28"@);
        lemma_replaced_concat(a, b, ' ', "%20"@);
        lemma_replaced_concat(a1, b1, ':', "%3A"@);
        lemma_replaced_concat(a2, b2, ',', "%2C"@);
        lemma_replaced_concat(a3, b3, '+', "%2B"@);
        lemma_replaced_concat(a4, b4, '(', "%28"@);
        lemma_replaced_concat(a5, b5, ')', "%29"@);
    }
}

/// The label of a badge that shows a time.
pub open spec fn time_label(time: Seq<char>) -> Seq<char> {
    badge_text(time + " (UTC+3:30)"@)
}

/// The label of a badge that shows a time.
fn encode_time_label(time: &str) -> (text: String)
    ensures
        text@ == time_label(time@),
{
    let mut label: String = time.to_string();
    label.append(" (UTC+3:30)");
    encode_badge_label(label.as_str())
}

/// The head of the report: what it is, when it was made and when the next one is,
/// and how many proxies and countries it lists.
pub open spec fn head_text(
    last: Seq<char>,
    next: Seq<char>,
    active: nat,
    countries: nat,
) -> Seq<char> {
    "<p align=\"left\">\n"@
        + "<img src=\"https://latex.codecogs.com/svg.image?\\huge&space;{\\color{Golden}\\mathrm{PR{\\color{black}\\O}XY\\;IP}\" width=220px\" </p><br/>\n"@
        + "\n> [!WARNING]\n>\n> <p><b>Daily Fresh Proxies</b></p>\n>\n"@
        + "> A curated list of <b>high-quality</b>, fully-tested proxies sourced from reputable ISPs and major global data centers (e.g., Google, Amazon, Cloudflare, Tencent, Hetzner, and others)\n"@
        + ">\n> <br/>\n>\n> <p><b>Auto-Updated Daily</b></p>\n>\n>\n"@
        + "> <img src=\"https://img.shields.io/badge/Last_Update-"@
        + last
        + "-966600\" />\n> <img src=\"https://img.shields.io/badge/Next_Update-"@
        + next
        + "-966600\" />\n> <img src=\"https://img.shields.io/badge/Active_Proxies-"@
        + decimal(active)
        + "-966600\" />\n> <img src=\"https://img.shields.io/badge/Countries-"@
        + decimal(countries)
        + "-966600\" />\n>\n> <br><br/>\n\n"@
}

/// Writes the head of the report.
fn write_head(last: &str, next: &str, active: u128, countries: usize) -> (text: String)
    ensures
        text@ == head_text(last@, next@, active as nat, countries as nat),
{
    let mut text: String = "<p align=\"left\">\n".to_string();
    text.append("<img src=\"https://latex.codecogs.com/svg.image?\\huge&space;{\\color{Golden}\\mathrm{PR{\\color{black}\\O}XY\\;IP}\" width=220px\" </p><br/>\n");
    text.append("\n> [!WARNING]\n>\n> <p><b>Daily Fresh Proxies</b></p>\n>\n");
    text.append("> A curated list of <b>high-quality</b>, fully-tested proxies sourced from reputable ISPs and major global data centers (e.g., Google, Amazon, Cloudflare, Tencent, Hetzner, and others)\n");
    text.append(">\n> <br/>\n>\n> <p><b>Auto-Updated Daily</b></p>\n>\n>\n");
    text.append("> <img src=\"https://img.shields.io/badge/Last_Update-");
    text.append(last);
    text.append("-966600\" />\n> <img src=\"https://img.shields.io/badge/Next_Update-");
    text.append(next);
    text.append("-966600\" />\n> <img src=\"https://img.shields.io/badge/Active_Proxies-");
    text.append(to_text(&decimal_chars(active)).as_str());
    text.append("-966600\" />\n> <img src=\"https://img.shields.io/badge/Countries-");
    text.append(to_text(&decimal_chars(countries as u128)).as_str());
    text.append("-966600\" />\n>\n> <br><br/>\n\n");
    text
}

/// The row of a proxy in its country's table.
pub open spec fn row_text(proxy: ProxyEntry) -> Seq<char> {
    "| <pre><code>"@ + proxy.ip + "</code></pre> | "@ + decimal(proxy.port as nat) + " | "@
        + proxy.isp + " | "@ + proxy.region + ", "@ + proxy.city + " |\n"@
}

/// The rows of proxies, in order.
pub open spec fn rows_text(proxies: Seq<ProxyEntry>) -> Seq<char>
    decreases proxies.len(),
{
    if proxies.len() == 0 {
        Seq::empty()
    } else {
        rows_text(proxies.drop_last()) + row_text(proxies.last())
    }
}

/// The section of a country: its flag, its name, how many proxies it has, and
/// their table.
pub open spec fn section_text(group: Group) -> Seq<char> {
    "## "@ + flag(group.code) + " "@ + shown_name(group.code) + " ("@ + decimal(
        group.proxies.len(),
    ) + " proxies)\n"@ + "<details>\n"@ + "<summary>Click to expand</summary>\n\n"@
        + "|   IP   |   Port   |   ISP   |   Location   |\n"@
        + "|:-------|:--------:|:--------|:------------:|\n"@ + rows_text(group.proxies)
        + "\n</details>\n\n---\n\n"@
}

/// The sections of countries, in order.
pub open spec fn sections_text(table: Seq<Group>) -> Seq<char>
    decreases table.len(),
{
    if table.len() == 0 {
        Seq::empty()
    } else {
        sections_text(table.drop_last()) + section_text(table.last())
    }
}

/// The report of a table, made at one time, with the next one at another.
pub open spec fn report_text(table: Seq<Group>, last: Seq<char>, next: Seq<char>) -> Seq<char> {
    head_text(time_label(last), time_label(next), total(table), table.len()) + sections_text(table)
}

/// Writes the row of a proxy.
fn write_row(proxy: &ProxyInfo) -> (text: String)
    ensures
        text@ == row_text(proxy@),
{
    let mut text: String = "| <pre><code>".to_string();
    text.append(proxy.ip.as_str());
    text.append("</code></pre> | ");
    text.append(to_text(&decimal_chars(proxy.port as u128)).as_str());
    text.append(" | ");
    text.append(proxy.isp.as_str());
    text.append(" | ");
    text.append(proxy.region.as_str());
    text.append(", ");
    text.append(proxy.city.as_str());
    text.append(" |\n");
    text
}

/// Writes the section of a country.
fn write_section(group: &CountryGroup) -> (text: String)
    ensures
        text@ == section_text(group@),
{
    let mut text: String = "## ".to_string();
    text.append(country_flag(group.code.as_str()).as_str());
    text.append(" ");
    text.append(get_country_name(group.code.as_str()).as_str());
    text.append(" (");
    text.append(to_text(&decimal_chars(group.proxies.len() as u128)).as_str());
    text.append(" proxies)\n");
    text.append("<details>\n");
    text.append("<summary>Click to expand</summary>\n\n");
    text.append("|   IP   |   Port   |   ISP   |   Location   |\n");
    text.append("|:-------|:--------:|:--------|:------------:|\n");
    let ghost start = text@;
    let ghost all = entries(group.proxies@);
    for i in 0..group.proxies.len()
        invariant
            all == entries(group.proxies@),
            text@ =~= start + rows_text(all.take(i as int)),
    {
        assert(all.take(i + 1).drop_last() =~= all.take(i as int));
        assert(all.take(i + 1).last() == group.proxies@[i as int]@);
        text.append(write_row(&group.proxies[i]).as_str());
    }
    assert(all.take(all.len() as int) =~= all);
    text.append("\n</details>\n\n---\n\n");
    text
}

/// Writes the report of a table, made at one time, with the next one at another.
pub fn render_markdown(table: &ProxyTable, last: &str, next: &str) -> (text: String)
    ensures
        text@ == report_text(table@, last@, next@),
{
    let last_label: String = encode_time_label(last);
    let next_label: String = encode_time_label(next);
    let countries: usize = table.country_count();
    let mut text: String = write_head(
        last_label.as_str(),
        next_label.as_str(),
        table.proxy_count(),
        countries,
    );
    let ghost start = text@;
    let ghost all = table@;
    for i in 0..countries
        invariant
            countries == all.len(),
            all == table@,
            text@ =~= start + sections_text(all.take(i as int)),
    {
        assert(all.take(i + 1).drop_last() =~= all.take(i as int));
        text.append(write_section(table.group(i)).as_str());
    }
    assert(all.take(all.len() as int) =~= all);
    text
}

/// The report of a table, made at a second, with the next one a day later. There
/// is none for a second that has no date, or whose next day has none.
pub open spec fn dated_report(table: Seq<Group>, seconds: i64) -> Option<Seq<char>> {
    if has_date(seconds) && seconds <= LATEST - DAY {
        Some(
            report_text(
                table,
                tehran_text(seconds, REPORT_TIME_FORMAT@),
                tehran_text((seconds + DAY) as i64, REPORT_TIME_FORMAT@),
            ),
        )
    } else {
        None
    }
}

/// Writes the report of a table, made at a second, with the next one a day later.
pub fn report_at(table: &ProxyTable, seconds: i64) -> (report: Option<String>)
    ensures
        match report {
            Some(text) => dated_report(table@, seconds) == Some(text@),
            None => dated_report(table@, seconds) is None,
        },
{
    if seconds < EARLIEST || seconds > LATEST - DAY {
        return None;
    }
    let (last, next) = report_times(seconds);
    Some(render_markdown(table, last.as_str(), next.as_str()))
}

/// Whether `report` is what is written of a table at a second that the clock read.
pub open spec fn is_dated_report(table: Seq<Group>, report: Option<Seq<char>>) -> bool {
    exists|reading: Reading|
        has_date(#[trigger] reading.at()) && report == dated_report(table, reading.at())
}

/// Writes the report of a table, made now.
pub fn markdown_report(table: &ProxyTable) -> (report: Option<String>)
    ensures
        is_dated_report(table@, content(report)),
{
    let now: Reading = utc_seconds();
    let report: Option<String> = report_at(table, now.seconds());
    assert(content(report) == dated_report(table@, now.at()));
    report
}

/// Whether `part` stands somewhere in `s`.
pub open spec fn holds_text(s: Seq<char>, part: Seq<char>) -> bool {
    exists|i: int| occurs_at(s, part, i)
}

/// What stands in a part of a text stands in the text.
proof fn lemma_holds_concat(a: Seq<char>, b: Seq<char>, part: Seq<char>)
    requires
        holds_text(a, part) || holds_text(b, part),
    ensures
        holds_text(a + b, part),
{
    let n = part.len() as int;
    if holds_text(a, part) {
        let i = choose|i: int| occurs_at(a, part, i);
        assert((a + b).subrange(i, i + n) =~= a.subrange(i, i + n));
        assert(occurs_at(a + b, part, i));
    } else {
        let i = choose|i: int| occurs_at(b, part, i);
        let k = a.len() + i;
        assert((a + b).subrange(k, k + n) =~= b.subrange(i, i + n));
        assert(occurs_at(a + b, part, k));
    }
}

/// The rows of a country hold the row of each of its proxies.
proof fn lemma_rows_hold(proxies: Seq<ProxyEntry>, k: int)
    requires
        0 <= k < proxies.len(),
    ensures
        holds_text(rows_text(proxies), row_text(proxies[k])),
    decreases proxies.len(),
{
    let row = row_text(proxies[k]);
    let front = proxies.drop_last();
    if k == proxies.len() - 1 {
        assert(row.subrange(0, row.len() as int) =~= row);
        assert(occurs_at(row, row, 0));
    } else {
        lemma_rows_hold(front, k);
    }
    lemma_holds_concat(rows_text(front), row_text(proxies.last()), row);
}

/// The sections hold the row of each proxy of the table.
proof fn lemma_sections_hold(table: Seq<Group>, i: int, k: int)
    requires
        0 <= i < table.len(),
        0 <= k < table[i].proxies.len(),
    ensures
        holds_text(sections_text(table), row_text(table[i].proxies[k])),
    decreases table.len(),
{
    let row = row_text(table[i].proxies[k]);
    let front = table.drop_last();
    if i == table.len() - 1 {
        let group = table[i];
        let start = "## "@ + flag(group.code) + " "@ + shown_name(group.code) + " ("@ + decimal(
            group.proxies.len(),
        ) + " proxies)\n"@ + "<details>\n"@ + "<summary>Click to expand</summary>\n\n"@
            + "|   IP   |   Port   |   ISP   |   Location   |\n"@
            + "|:-------|:--------:|:--------|:------------:|\n"@;
        lemma_rows_hold(group.proxies, k);
        lemma_holds_concat(start, rows_text(group.proxies), row);
        lemma_holds_concat(start + rows_text(group.proxies), "\n</details>\n\n---\n\n"@, row);
        assert(section_text(group) == start + rows_text(group.proxies)
            + "\n</details>\n\n---\n\n"@);
    } else {
        lemma_sections_hold(front, i, k);
    }
    lemma_holds_concat(sections_text(front), section_text(table.last()), row);
}

/// The report shows every proxy of the table, with all that is known of it.
pub proof fn law_report_shows_every_proxy(
    table: Seq<Group>,
    last: Seq<char>,
    next: Seq<char>,
    i: int,
    k: int,
)
    requires
        0 <= i < table.len(),
        0 <= k < table[i].proxies.len(),
    ensures
        holds_text(report_text(table, last, next), row_text(table[i].proxies[k])),
{
    lemma_sections_hold(table, i, k);
    lemma_holds_concat(
        head_text(time_label(last), time_label(next), total(table), table.len()),
        sections_text(table),
        row_text(table[i].proxies[k]),
    );
}

/// A label is written character by character: a space, a colon, a comma, a plus sign
/// and brackets as their codes, and every other character as it is.
pub proof fn law_badge_character_by_character(a: Seq<char>, b: Seq<char>, c: char)
    ensures
        badge_text(a + b) == badge_text(a) + badge_text(b),
        badge_text(seq![' ']) == seq!['%', '2', '0'],
        badge_text(seq![':']) == seq!['%', '3', 'A'],
        badge_text(seq![',']) == seq!['%', '2', 'C'],
        badge_text(seq!['+']) == seq!['%', '2', 'B'],
        badge_text(seq!['(']) == seq!['%', '2', '8'],
        badge_text(seq![')']) == seq!['%', '2', '9'],
        c != ' ' && c != ':' && c != ',' && c != '+' && c != '(' && c != ')' ==> badge_text(seq![c])
            == seq![c],
    decreases b.len(),
{
    if b.len() == 0 {
        assert(a + b =~= a);
        assert(badge_text(a) + badge_text(b) =~= badge_text(a));
    } else {
        law_badge_character_by_character(a, b.drop_last(), c);
        assert((a + b).drop_last() =~= a + b.drop_last());
        assert((a + b).last() == b.last());
        assert(badge_text(a + b) =~= badge_text(a) + badge_text(b));
    }
    reveal_strlit("%20");
    reveal_strlit("%3A");
    reveal_strlit("%2C");
    reveal_strlit("%2B");
    reveal_strlit("%28");
    reveal_strlit("%29");
    lemma_badge_one(' ');
    lemma_badge_one(':');
    lemma_badge_one(',');
    lemma_badge_one('+');
    lemma_badge_one('(');
    lemma_badge_one(')');
    lemma_badge_one(c);
    assert(badge_text(seq![' ']) =~= seq!['%', '2', '0']);
    assert(badge_text(seq![':']) =~= seq!['%', '3', 'A']);
    assert(badge_text(seq![',']) =~= seq!['%', '2', 'C']);
    assert(badge_text(seq!['+']) =~= seq!['%', '2', 'B']);
    assert(badge_text(seq!['(']) =~= seq!['%', '2', '8']);
    assert(badge_text(seq![')']) =~= seq!['%', '2', '9']);
}

/// A label of one character is written as the character.
proof fn lemma_badge_one(c: char)
    ensures
        badge_text(seq![c]) == badge_char(c),
{
    assert(seq![c].drop_last() =~= Seq::empty());
    assert(badge_text(Seq::empty()) =~= Seq::empty());
    assert(badge_text(seq![c]) =~= badge_char(c));
}

/// The report of a table with one country more at the end shows that country after
/// the others: its flag, its name, how many proxies it has, and then its rows.
pub proof fn law_sections_in_order(table: Seq<Group>, group: Group)
    ensures
        sections_text(table.push(group)) == sections_text(table) + ("## "@ + flag(group.code)
            + " "@ + shown_name(group.code) + " ("@ + decimal(group.proxies.len())
            + " proxies)\n<details>\n<summary>Click to expand</summary>\n\n|   IP   |   Port   |   ISP   |   Location   |\n|:-------|:--------:|:--------|:------------:|\n"@
            + rows_text(group.proxies) + "\n</details>\n\n---\n\n"@),
        sections_text(Seq::empty()) == Seq::<char>::empty(),
{
    assert(table.push(group).drop_last() =~= table);
    reveal_strlit(" proxies)\n<details>\n<summary>Click to expand</summary>\n\n|   IP   |   Port   |   ISP   |   Location   |\n|:-------|:--------:|:--------|:------------:|\n");
    reveal_strlit(" proxies)\n");
    reveal_strlit("<details>\n");
    reveal_strlit("<summary>Click to expand</summary>\n\n");
    reveal_strlit("|   IP   |   Port   |   ISP   |   Location   |\n");
    reveal_strlit("|:-------|:--------:|:--------|:------------:|\n");
    let front = " proxies)\n"@ + "<details>\n"@ + "<summary>Click to expand</summary>\n\n"@
        + "|   IP   |   Port   |   ISP   |   Location   |\n"@
        + "|:-------|:--------:|:--------|:------------:|\n"@;
    assert(front
        =~= " proxies)\n<details>\n<summary>Click to expand</summary>\n\n|   IP   |   Port   |   ISP   |   Location   |\n|:-------|:--------:|:--------|:------------:|\n"@);
    let start = "## "@ + flag(group.code) + " "@ + shown_name(group.code) + " ("@ + decimal(
        group.proxies.len(),
    );
    assert(section_text(group) =~= start + front + rows_text(group.proxies)
        + "\n</details>\n\n---\n\n"@);
}

/// The rows of a country with one proxy more at the end show that proxy after the
/// others, with its address, its port, its network, its region and its city.
pub proof fn law_rows_in_order(proxies: Seq<ProxyEntry>, proxy: ProxyEntry)
    ensures
        rows_text(proxies.push(proxy)) == rows_text(proxies) + ("| <pre><code>"@ + proxy.ip
            + "</code></pre> | "@ + decimal(proxy.port as nat) + " | "@ + proxy.isp + " | "@
            + proxy.region + ", "@ + proxy.city + " |\n"@),
        rows_text(Seq::empty()) == Seq::<char>::empty(),
{
    assert(proxies.push(proxy).drop_last() =~= proxies);
}

/// The report shows when it was made and when the next one is, with the offset of
/// the zone, and how many proxies and countries it has; behind that it shows every
/// country.
pub proof fn law_report_shows_counts(
    table: Seq<Group>,
    last: Seq<char>,
    next: Seq<char>,
    report: Seq<char>,
)
    requires
        report == report_text(table, last, next),
    ensures
        holds_text(
            report,
            "badge/Last_Update-"@ + badge_text(last + " (UTC+3:30)"@) + "-966600"@,
        ),
        holds_text(
            report,
            "badge/Next_Update-"@ + badge_text(next + " (UTC+3:30)"@) + "-966600"@,
        ),
        holds_text(report, "badge/Active_Proxies-"@ + decimal(total(table)) + "-966600"@),
        holds_text(report, "badge/Countries-"@ + decimal(table.len()) + "-966600"@),
        report.len() >= sections_text(table).len(),
        report.skip(report.len() - sections_text(table).len()) == sections_text(table),
{
    reveal_strlit("badge/Last_Update-");
    reveal_strlit("badge/Next_Update-");
    reveal_strlit("badge/Active_Proxies-");
    reveal_strlit("badge/Countries-");
    reveal_strlit("-966600");
    reveal_strlit("> <img src=\"https://img.shields.io/badge/Last_Update-");
    reveal_strlit("-966600\" />\n> <img src=\"https://img.shields.io/badge/Next_Update-");
    reveal_strlit("-966600\" />\n> <img src=\"https://img.shields.io/badge/Active_Proxies-");
    reveal_strlit("-966600\" />\n> <img src=\"https://img.shields.io/badge/Countries-");
    reveal_strlit("-966600\" />\n>\n> <br><br/>\n\n");
    let (x, y) = (time_label(last), time_label(next));
    let (m, n) = (decimal(total(table)), decimal(table.len()));
    let p0 = "<p align=\"left\">\n"@
        + "<img src=\"https://latex.codecogs.com/svg.image?\\huge&space;{\\color{Golden}\\mathrm{PR{\\color{black}\\O}XY\\;IP}\" width=220px\" </p><br/>\n"@
        + "\n> [!WARNING]\n>\n> <p><b>Daily Fresh Proxies</b></p>\n>\n"@
        + "> A curated list of <b>high-quality</b>, fully-tested proxies sourced from reputable ISPs and major global data centers (e.g., Google, Amazon, Cloudflare, Tencent, Hetzner, and others)\n"@
        + ">\n> <br/>\n>\n> <p><b>Auto-Updated Daily</b></p>\n>\n>\n"@;
    let a = "> <img src=\"https://img.shields.io/badge/Last_Update-"@;
    let b = "-966600\" />\n> <img src=\"https://img.shields.io/badge/Next_Update-"@;
    let c = "-966600\" />\n> <img src=\"https://img.shields.io/badge/Active_Proxies-"@;
    let d = "-966600\" />\n> <img src=\"https://img.shields.io/badge/Countries-"@;
    let e = "-966600\" />\n>\n> <br><br/>\n\n"@;
    let head = head_text(x, y, total(table), table.len());
    let p1 = p0 + a + x;
    let p2 = p1 + b + y;
    let p3 = p2 + c + m;
    assert(head == p3 + d + n + e);
    assert(a.skip(a.len() - "badge/Last_Update-"@.len()) =~= "badge/Last_Update-"@);
    assert(b.skip(b.len() - "badge/Next_Update-"@.len()) =~= "badge/Next_Update-"@);
    assert(c.skip(c.len() - "badge/Active_Proxies-"@.len()) =~= "badge/Active_Proxies-"@);
    assert(d.skip(d.len() - "badge/Countries-"@.len()) =~= "badge/Countries-"@);
    assert(b.take(7) =~= "-966600"@);
    assert(c.take(7) =~= "-966600"@);
    assert(d.take(7) =~= "-966600"@);
    assert(e.take(7) =~= "-966600"@);
    lemma_badge_held(p0, a, x, b, "badge/Last_Update-"@, "-966600"@);
    lemma_badge_held(p1, b, y, c, "badge/Next_Update-"@, "-966600"@);
    lemma_badge_held(p2, c, m, d, "badge/Active_Proxies-"@, "-966600"@);
    lemma_badge_held(p3, d, n, e, "badge/Countries-"@, "-966600"@);
    let first = "badge/Last_Update-"@ + x + "-966600"@;
    let second = "badge/Next_Update-"@ + y + "-966600"@;
    let third = "badge/Active_Proxies-"@ + m + "-966600"@;
    let fourth = "badge/Countries-"@ + n + "-966600"@;
    lemma_holds_concat(p1 + b, y, first);
    lemma_holds_concat(p2, c, first);
    lemma_holds_concat(p2 + c, m, first);
    lemma_holds_concat(p2 + c, m, second);
    lemma_holds_concat(p3, d, first);
    lemma_holds_concat(p3, d, second);
    lemma_holds_concat(p3 + d, n, first);
    lemma_holds_concat(p3 + d, n, second);
    lemma_holds_concat(p3 + d, n, third);
    lemma_holds_concat(p3 + d + n, e, first);
    lemma_holds_concat(p3 + d + n, e, second);
    lemma_holds_concat(p3 + d + n, e, third);
    lemma_holds_concat(head, sections_text(table), first);
    lemma_holds_concat(head, sections_text(table), second);
    lemma_holds_concat(head, sections_text(table), third);
    lemma_holds_concat(head, sections_text(table), fourth);
    assert(report.skip(report.len() - sections_text(table).len()) =~= sections_text(table));
}

/// A text that ends in a name, a value and a text that starts with an end hold the
/// three one after another.
proof fn lemma_badge_held(
    front: Seq<char>,
    a: Seq<char>,
    value: Seq<char>,
    b: Seq<char>,
    name: Seq<char>,
    end: Seq<char>,
)
    requires
        name.len() <= a.len(),
        a.skip(a.len() - name.len()) == name,
        end.len() <= b.len(),
        b.take(end.len() as int) == end,
    ensures
        holds_text(front + a + value + b, name + value + end),
{
    let s = front + a + value + b;
    let part = name + value + end;
    let i = front.len() + a.len() - name.len();
    assert forall|k: int| 0 <= k < part.len() implies s[i + k] == #[trigger] part[k] by {
        if k < name.len() {
            assert(a.skip(a.len() - name.len())[k] == name[k]);
        } else if k >= name.len() + value.len() {
            let m = k - name.len() - value.len();
            assert(b.take(end.len() as int)[m] == end[m]);
        }
    }
    assert(s.subrange(i, i + part.len()) =~= part);
    assert(occurs_at(s, part, i));
}

/// The report of a table at a second shows the local time in Tehran at that second
/// and a day of 86400 seconds later.
pub proof fn law_report_of_a_second(table: ProxyTable, seconds: i64, report: Option<String>)
    requires
        call_ensures(report_at, (&table, seconds), report),
    ensures
        report is Some <==> has_date(seconds) && seconds + 86400 <= LATEST,
        report matches Some(text) ==> text@ == report_text(
            table@,
            tehran_text(seconds, "%a, %d %b %Y %H:%M"@),
            tehran_text((seconds + 86400) as i64, "%a, %d %b %Y %H:%M"@),
        ),
{
}

/// The report that is made now is of a second that the clock of the machine read.
pub proof fn law_report_made_now(table: ProxyTable, report: Option<String>)
    requires
        call_ensures(markdown_report, (&table,), report),
    ensures
        exists|reading: Reading|
            has_date(#[trigger] reading.at()) && match report {
                Some(text) => text@ == report_text(
                    table@,
                    tehran_text(reading.at(), "%a, %d %b %Y %H:%M"@),
                    tehran_text((reading.at() + 86400) as i64, "%a, %d %b %Y %H:%M"@),
                ),
                None => reading.at() + 86400 > LATEST,
            },
{
    let reading = choose|reading: Reading|
        has_date(#[trigger] reading.at()) && content(report) == dated_report(
            table@,
            reading.at(),
        );
    assert(has_date(reading.at()));
}

} // verus!
