//! The proxies that are to be checked: read from a list, or resolved from names.

use vstd::hash_set::StringHashSet;
use vstd::prelude::*;

#[allow(unused_imports)]
use crate::address::{ip_text, ip_value, law_ip_round_trip};
use crate::address::IpAddr;
#[allow(unused_imports)]
use crate::distinct::{
    distinct, extend_distinct, law_distinct_order, law_extend_distinct, law_extend_keeps,
    lemma_extend_one, lemma_extend_single,
};
#[allow(unused_imports)]
use crate::number::decimal_value;
use crate::number::parse_decimal;
#[allow(unused_imports)]
use crate::text::{
    contents, is_space, law_lines, law_lines_concat, law_not_empty_concat, law_split_pieces,
    law_trim, lines, not_empty, split, texts, trim,
};
use crate::text::{split_chars, split_lines, to_chars, to_text, trim_chars, Separator};

verus! {

/// The port that is checked.
pub const TARGET_PORT: u16 = 443;

/// The port of a row whose second field is no port.
pub const DEFAULT_PORT: u16 = 443;

/// An address that stands for the machine's own where that is not known.
pub const UNKNOWN_SELF_IP: &'static str = "0.0.0.0";

/// The contents of rows of a list.
pub open spec fn row_contents(rows: Seq<(String, u16)>) -> Seq<(Seq<char>, u16)> {
    rows.map_values(|row: (String, u16)| (row.0@, row.1))
}

/// The port that a field gives: the number in it, or the default port where there
/// is none.
pub open spec fn port_value(field: Seq<char>) -> u16 {
    match decimal_value(trim(field), 0xffff) {
        Ok(port) => port as u16,
        Err(_) => DEFAULT_PORT,
    }
}

/// What a line of the list gives: the address in its first field and the port in
/// its second. Blank lines and lines of one field give nothing.
pub open spec fn list_row(line: Seq<char>) -> Option<(Seq<char>, u16)> {
    let fields = split(line, Separator::Is(','));
    if trim(line).len() == 0 || fields.len() < 2 {
        None
    } else {
        Some((trim(fields[0]), port_value(fields[1])))
    }
}

/// What lines of the list give, in order.
pub open spec fn list_rows(all: Seq<Seq<char>>) -> Seq<(Seq<char>, u16)>
    decreases all.len(),
{
    if all.len() == 0 {
        Seq::empty()
    } else {
        match list_row(all.last()) {
            Some(row) => list_rows(all.drop_last()).push(row),
            None => list_rows(all.drop_last()),
        }
    }
}

/// Reads one line of the list.
fn parse_row(line: &[char]) -> (result: Option<(String, u16)>)
    ensures
        match result {
            Some((ip, port)) => list_row(line@) == Some((ip@, port)),
            None => list_row(line@) is None,
        },
{
    let trimmed: Vec<char> = trim_chars(line);
    if trimmed.len() == 0 {
        return None;
    }
    let fields: Vec<Vec<char>> = split_chars(line, Separator::Is(','));
    assert(fields@.len() == split(line@, Separator::Is(',')).len());
    if fields.len() < 2 {
        return None;
    }
    assert(contents(fields@)[0] == fields@[0]@);
    assert(contents(fields@)[1] == fields@[1]@);
    let ip: Vec<char> = trim_chars(&fields[0]);
    let digits: Vec<char> = trim_chars(&fields[1]);
    let port: u16 = match parse_decimal(&digits, 0xffff) {
        Ok(port) => port as u16,
        Err(_) => DEFAULT_PORT,
    };
    Some((to_text(&ip), port))
}

/// Reads the list: the address and the port of each line.
pub fn read_csv_candidates(list: &str) -> (rows: Vec<(String, u16)>)
    ensures
        row_contents(rows@) == list_rows(lines(list@)),
{
    let chars: Vec<char> = to_chars(list);
    let all: Vec<Vec<char>> = split_lines(&chars);
    let ghost texts = lines(list@);
    let mut rows: Vec<(String, u16)> = Vec::new();
    assert forall|k: int| 0 <= k < all@.len() implies texts[k] == #[trigger] all@[k]@ by {
        assert(contents(all@)[k] == all@[k]@);
    }
    assert(row_contents(rows@) =~= Seq::empty());
    for i in 0..all.len()
        invariant
            texts.len() == all@.len(),
            forall|k: int| 0 <= k < all@.len() ==> texts[k] == #[trigger] all@[k]@,
            row_contents(rows@) =~= list_rows(texts.take(i as int)),
    {
        assert(texts.take(i + 1).drop_last() =~= texts.take(i as int));
        let ghost before = rows@;
        if let Some(row) = parse_row(&all[i]) {
            let ghost content = (row.0@, row.1);
            rows.push(row);
            assert(row_contents(rows@) =~= row_contents(before).push(content));
        }
    }
    assert(texts.take(all@.len() as int) =~= texts);
    rows
}

/// The names in a text: its lines without white space around them, but for blank
/// ones.
pub open spec fn domain_names(text: Seq<char>) -> Seq<Seq<char>> {
    not_empty(lines(text).map_values(|line: Seq<char>| trim(line)))
}

/// The names in a text, one on each line.
pub fn private_domains(text: &str) -> (names: Vec<String>)
    ensures
        texts(names@) == domain_names(text@),
{
    let chars: Vec<char> = to_chars(text);
    let all: Vec<Vec<char>> = split_lines(&chars);
    let ghost trimmed = lines(text@).map_values(|line: Seq<char>| trim(line));
    let mut names: Vec<String> = Vec::new();
    assert forall|k: int| 0 <= k < all@.len() implies trimmed[k] == trim(#[trigger] all@[k]@) by {
        assert(contents(all@)[k] == all@[k]@);
    }
    assert(texts(names@) =~= Seq::empty());
    for i in 0..all.len()
        invariant
            trimmed.len() == all@.len(),
            forall|k: int| 0 <= k < all@.len() ==> trimmed[k] == trim(#[trigger] all@[k]@),
            texts(names@) =~= not_empty(trimmed.take(i as int)),
    {
        assert(trimmed.take(i + 1).drop_last() =~= trimmed.take(i as int));
        let ghost before = names@;
        let name: Vec<char> = trim_chars(&all[i]);
        if name.len() > 0 {
            names.push(to_text(&name));
            assert(texts(names@) =~= texts(before).push(name@));
        }
    }
    assert(trimmed.take(all@.len() as int) =~= trimmed);
    names
}

/// What is looked up for a name: the name and the port.
pub fn lookup_target(domain: &str) -> (target: String)
    ensures
        target@ == domain@ + ":443"@,
{
    let mut target: String = domain.to_string();
    target.append(":443");
    target
}

/// The texts of the addresses that a name resolved to, or nothing if it resolved
/// to none.
pub fn resolved_ips(addresses: &Vec<IpAddr>) -> (result: Option<Vec<String>>)
    ensures
        match result {
            Some(ips) => addresses@.len() > 0 && texts(ips@) == addresses@.map_values(
                |ip: IpAddr| ip_text(ip),
            ),
            None => addresses@.len() == 0,
        },
{
    if addresses.len() == 0 {
        return None;
    }
    let mut ips: Vec<String> = Vec::new();
    let ghost all = addresses@.map_values(|ip: IpAddr| ip_text(ip));
    for i in 0..addresses.len()
        invariant
            all == addresses@.map_values(|ip: IpAddr| ip_text(ip)),
            texts(ips@) =~= all.take(i as int),
    {
        let ghost before = ips@;
        let text: String = addresses[i].to_text();
        let ghost content = text@;
        ips.push(text);
        assert(texts(ips@) =~= texts(before).push(content));
    }
    assert(all.take(all.len() as int) =~= all);
    Some(ips)
}

/// The machine's own address: the reply of the service that tells it, without
/// white space around it, or a stand-in where there was no reply.
pub fn known_self_ip(reply: Option<&str>) -> (ip: String)
    ensures
        ip@ == match reply {
            Some(text) => trim(text@),
            None => UNKNOWN_SELF_IP@,
        },
{
    match reply {
        Some(text) => {
            let chars: Vec<char> = to_chars(text);
            let trimmed: Vec<char> = trim_chars(&chars);
            to_text(&trimmed)
        },
        None => UNKNOWN_SELF_IP.to_string(),
    }
}

/// The addresses of rows that have the port that is checked.
pub open spec fn on_target_port(rows: Seq<(Seq<char>, u16)>) -> Seq<Seq<char>>
    decreases rows.len(),
{
    if rows.len() == 0 {
        Seq::empty()
    } else if rows.last().1 == TARGET_PORT {
        on_target_port(rows.drop_last()).push(rows.last().0)
    } else {
        on_target_port(rows.drop_last())
    }
}

/// The addresses to check, without repetition, in the order in which they came.
pub struct ProxyCandidates {
    list: Vec<(String, u16)>,
    seen: StringHashSet,
}

impl View for ProxyCandidates {
    type V = Seq<Seq<char>>;

    closed spec fn view(&self) -> Seq<Seq<char>> {
        self.list@.map_values(|row: (String, u16)| row.0@)
    }
}

impl ProxyCandidates {
    /// No address stands in the list twice, each with the port that is checked.
    pub closed spec fn wf(&self) -> bool {
        &&& self@.no_duplicates()
        &&& forall|i: int| 0 <= i < self.list@.len() ==> (#[trigger] self.list@[i]).1 == TARGET_PORT
        &&& forall|ip: Seq<char>| #[trigger] self.seen@.contains(ip) <==> self@.contains(ip)
    }

    /// An empty list.
    pub fn new() -> (candidates: ProxyCandidates)
        ensures
            candidates.wf(),
            candidates@ == Seq::<Seq<char>>::empty(),
    {
        let candidates: ProxyCandidates = ProxyCandidates {
            list: Vec::new(),
            seen: StringHashSet::new(),
        };
        assert(candidates@ =~= Seq::<Seq<char>>::empty());
        candidates
    }

    /// Adds an address, unless it is there already.
    pub fn add(&mut self, ip: String)
        requires
            old(self).wf(),
        ensures
            final(self).wf(),
            final(self)@ == extend_distinct(old(self)@, seq![ip@]),
    {
        let ghost before = self@;
        let ghost content = ip@;
        proof {
            lemma_extend_single(before, content);
        }
        if self.seen.insert(ip.clone()) {
            self.list.push((ip, TARGET_PORT));
            assert(self@ =~= before.push(content));
            assert(!before.contains(content));
            assert(self@.no_duplicates());
            assert forall|x: Seq<char>| #[trigger] self.seen@.contains(x) <==> self@.contains(x) by {
                assert(self@[before.len() as int] == content);
                if before.contains(x) {
                    let k = choose|k: int| 0 <= k < before.len() && before[k] == x;
                    assert(self@[k] == x);
                }
            }
        } else {
            assert(self@ =~= before);
            assert(self.seen@ =~= old(self).seen@);
            assert(self.wf());
        }
    }

    /// Adds the addresses of the rows that have the port that is checked.
    pub fn add_listed(&mut self, rows: Vec<(String, u16)>)
        requires
            old(self).wf(),
        ensures
            final(self).wf(),
            final(self)@ == extend_distinct(
                old(self)@,
                on_target_port(row_contents(rows@)),
            ),
    {
        let ghost all = row_contents(rows@);
        let ghost before = self@;
        for row in it: rows
            invariant
                it.seq() == rows@,
                all == row_contents(rows@),
                self.wf(),
                self@ == extend_distinct(before, on_target_port(all.take(it.index() as int))),
        {
            let ghost i = it.index() as int;
            assert(all.take(i + 1).drop_last() =~= all.take(i));
            assert(all.take(i + 1).last() == (row.0@, row.1));
            if row.1 == TARGET_PORT {
                let ghost so_far = on_target_port(all.take(i));
                proof {
                    lemma_extend_one(before, so_far, row.0@);
                }
                self.add(row.0);
            }
        }
        assert(all.take(all.len() as int) =~= all);
    }

    /// Adds the addresses that a name resolved to.
    pub fn add_resolved(&mut self, ips: Vec<String>)
        requires
            old(self).wf(),
        ensures
            final(self).wf(),
            final(self)@ == extend_distinct(old(self)@, texts(ips@)),
    {
        let ghost all = texts(ips@);
        let ghost before = self@;
        for ip in it: ips
            invariant
                it.seq() == ips@,
                all == texts(ips@),
                self.wf(),
                self@ == extend_distinct(before, all.take(it.index() as int)),
        {
            let ghost i = it.index() as int;
            proof {
                lemma_extend_one(before, all.take(i), ip@);
                assert(all.take(i + 1) =~= all.take(i).push(ip@));
            }
            self.add(ip);
        }
        assert(all.take(all.len() as int) =~= all);
    }

    /// The addresses, each with the port that is checked.
    pub fn into_list(self) -> (list: Vec<(String, u16)>)
        requires
            self.wf(),
        ensures
            row_contents(list@) == self@.map_values(|ip: Seq<char>| (ip, TARGET_PORT)),
    {
        assert(row_contents(self.list@) =~= self@.map_values(|ip: Seq<char>| (ip, TARGET_PORT)));
        self.list
    }

    /// A list that is kept as it should be holds no address twice.
    pub proof fn law_no_repetition(&self)
        requires
            self.wf(),
        ensures
            self@.no_duplicates(),
    {
    }
}

/// A list that starts empty and is given the rows of a file and then addresses
/// that names resolved to holds each fitting address exactly once, where it first
/// came.
pub proof fn law_candidates_in_order(rows: Seq<(Seq<char>, u16)>, resolved: Seq<Seq<char>>)
    ensures
        extend_distinct(
            extend_distinct(Seq::<Seq<char>>::empty(), on_target_port(rows)),
            resolved,
        ) == distinct(on_target_port(rows) + resolved),
{
    let first = on_target_port(rows);
    let none = Seq::<Seq<char>>::empty();
    law_extend_distinct(none, first);
    assert(distinct(none) == none);
    assert(none + first =~= first);
    law_extend_distinct(first, resolved);
}

/// The addresses of two lists of rows together are those of the first and then those
/// of the second; a row gives its address if its port is 443, and nothing otherwise.
pub proof fn law_rows_on_port(
    a: Seq<(Seq<char>, u16)>,
    b: Seq<(Seq<char>, u16)>,
    row: (Seq<char>, u16),
)
    ensures
        on_target_port(a + b) == on_target_port(a) + on_target_port(b),
        on_target_port(seq![row]) == if row.1 == 443 {
            seq![row.0]
        } else {
            Seq::empty()
        },
    decreases b.len(),
{
    if b.len() == 0 {
        assert(a + b =~= a);
        assert(on_target_port(a) + on_target_port(b) =~= on_target_port(a));
    } else {
        law_rows_on_port(a, b.drop_last(), row);
        assert((a + b).drop_last() =~= a + b.drop_last());
        assert((a + b).last() == b.last());
        assert(on_target_port(a + b) =~= on_target_port(a) + on_target_port(b));
    }
    assert(seq![row].drop_last() =~= Seq::empty());
    assert(on_target_port(Seq::empty()) =~= Seq::empty());
    assert(on_target_port(seq![row]) =~= if row.1 == 443 {
        seq![row.0]
    } else {
        Seq::empty()
    });
}

/// Rows give an address if and only if one of them has it with port 443.
pub proof fn law_listed_address(rows: Seq<(Seq<char>, u16)>, ip: Seq<char>)
    ensures
        on_target_port(rows).contains(ip) <==> rows.contains((ip, 443u16)),
    decreases rows.len(),
{
    if rows.len() > 0 {
        let front = rows.drop_last();
        let (before, after) = (on_target_port(front), on_target_port(rows));
        let last = rows.last();
        law_listed_address(front, ip);
        assert(rows[rows.len() - 1] == last);
        if before.contains(ip) {
            let k = choose|k: int| 0 <= k < before.len() && before[k] == ip;
            assert(after[k] == ip);
            let m = choose|m: int| 0 <= m < front.len() && front[m] == (ip, 443u16);
            assert(rows[m] == (ip, 443u16));
        }
        if after.contains(ip) && !before.contains(ip) {
            let k = choose|k: int| 0 <= k < after.len() && after[k] == ip;
            if k < before.len() {
                assert(before[k] == ip);
            }
            assert(last == (ip, 443u16));
        }
        if rows.contains((ip, 443u16)) && !front.contains((ip, 443u16)) {
            let m = choose|m: int| 0 <= m < rows.len() && rows[m] == (ip, 443u16);
            if m < front.len() {
                assert(front[m] == (ip, 443u16));
            }
            assert(after[before.len() as int] == ip);
        }
    }
}

/// A list that starts empty and is given rows holds rows only, each once, and every
/// row with port 443. Where no row is repeated and all have that port, it holds them
/// as they are.
pub proof fn law_list_of_rows(
    rows: Seq<(Seq<char>, u16)>,
    candidates: ProxyCandidates,
    list: Vec<(String, u16)>,
)
    requires
        candidates.wf(),
        candidates@ == extend_distinct(Seq::<Seq<char>>::empty(), on_target_port(rows)),
        call_ensures(ProxyCandidates::into_list, (candidates,), list),
    ensures
        forall|i: int|
            0 <= i < row_contents(list@).len() ==> rows.contains(
                #[trigger] row_contents(list@)[i],
            ) && row_contents(list@)[i].1 == 443,
        forall|i: int|
            0 <= i < rows.len() && (#[trigger] rows[i]).1 == 443 ==> row_contents(list@).contains(
                rows[i],
            ),
        row_contents(list@).no_duplicates(),
        rows.no_duplicates() && (forall|i: int| 0 <= i < rows.len() ==> (#[trigger] rows[i]).1 == 443)
            ==> row_contents(list@) == rows,
{
    let none = Seq::<Seq<char>>::empty();
    let found = on_target_port(rows);
    let kept = candidates@;
    let all = row_contents(list@);
    law_extend_keeps(none, found);
    assert forall|i: int| 0 <= i < all.len() implies rows.contains(#[trigger] all[i]) && all[i].1
        == 443 by {
        assert(all[i] == (kept[i], 443u16));
        assert(kept.contains(kept[i]));
        law_listed_address(rows, kept[i]);
    }
    assert forall|i: int| 0 <= i < rows.len() && (#[trigger] rows[i]).1 == 443 implies all.contains(
        rows[i],
    ) by {
        law_listed_address(rows, rows[i].0);
        assert(rows[i] == (rows[i].0, 443u16));
        assert(rows.contains(rows[i]));
        assert(kept.contains(rows[i].0));
        let k = choose|k: int| 0 <= k < kept.len() && kept[k] == rows[i].0;
        assert(all[k] == rows[i]);
    }
    candidates.law_no_repetition();
    assert forall|i: int, j: int| 0 <= i < all.len() && 0 <= j < all.len() && i != j implies all[i]
        != all[j] by {
        assert(kept[i] != kept[j]);
    }
    if rows.no_duplicates() && forall|i: int|
        0 <= i < rows.len() ==> (#[trigger] rows[i]).1 == 443 {
        lemma_all_on_port(rows);
        law_extend_distinct(none, found);
        assert(distinct(none) == none);
        assert(none + found =~= found);
        assert(found.no_duplicates()) by {
            assert forall|i: int, j: int|
                0 <= i < found.len() && 0 <= j < found.len() && i != j implies found[i]
                != found[j] by {
                assert(rows[i] != rows[j]);
                assert(rows[i].1 == 443 && rows[j].1 == 443);
            }
        }
        law_distinct_order(found, Seq::empty());
        assert(all =~= rows);
    }
}

/// Rows that all have the port give their addresses in order.
proof fn lemma_all_on_port(rows: Seq<(Seq<char>, u16)>)
    requires
        forall|i: int| 0 <= i < rows.len() ==> (#[trigger] rows[i]).1 == 443,
    ensures
        on_target_port(rows).len() == rows.len(),
        forall|i: int|
            0 <= i < rows.len() ==> on_target_port(rows)[i] == (#[trigger] rows[i]).0,
    decreases rows.len(),
{
    if rows.len() > 0 {
        let front = rows.drop_last();
        assert forall|i: int| 0 <= i < front.len() implies (#[trigger] front[i]).1 == 443 by {
            assert(front[i] == rows[i]);
        }
        lemma_all_on_port(front);
        assert(rows[rows.len() - 1].1 == 443);
        assert forall|i: int| 0 <= i < rows.len() implies on_target_port(rows)[i] == (
        #[trigger] rows[i]).0 by {
            if i < front.len() {
                assert(front[i] == rows[i]);
            }
        }
    }
}

/// What is listed afterwards is what was listed before, in its order, and then what
/// the rows have with port 443 and was not there.
pub proof fn law_list_grows(
    before: Seq<Seq<char>>,
    rows: Seq<(Seq<char>, u16)>,
    resolved: Seq<Seq<char>>,
    ip: Seq<char>,
)
    ensures
        ({
            let after = extend_distinct(before, on_target_port(rows));
            &&& before.len() <= after.len()
            &&& after.take(before.len() as int) == before
            &&& after.contains(ip) <==> before.contains(ip) || rows.contains((ip, 443u16))
        }),
        ({
            let after = extend_distinct(before, resolved);
            &&& before.len() <= after.len()
            &&& after.take(before.len() as int) == before
            &&& after.contains(ip) <==> before.contains(ip) || resolved.contains(ip)
        }),
{
    law_extend_keeps(before, on_target_port(rows));
    law_extend_keeps(before, resolved);
    law_listed_address(rows, ip);
}

/// Every address is listed with port 443.
pub proof fn law_port_of_list(candidates: ProxyCandidates, list: Vec<(String, u16)>)
    requires
        call_ensures(ProxyCandidates::into_list, (candidates,), list),
    ensures
        list@.len() == candidates@.len(),
        forall|i: int|
            0 <= i < list@.len() ==> (#[trigger] list@[i]).1 == 443 && list@[i].0@ == candidates@[i],
{
    assert(row_contents(list@).len() == list@.len());
    assert forall|i: int| 0 <= i < list@.len() implies (#[trigger] list@[i]).1 == 443
        && list@[i].0@ == candidates@[i] by {
        assert(row_contents(list@)[i] == (list@[i].0@, list@[i].1));
        assert(row_contents(list@)[i] == (candidates@[i], TARGET_PORT));
    }
}

/// A line of an address, a comma and a port gives them without the white space
/// around them, whatever follows a second comma. A port that is no number up to
/// 65535 stands for 443. A line without a comma gives nothing.
pub proof fn law_row_of_line(first: Seq<char>, second: Seq<char>, more: Seq<char>)
    requires
        !first.contains(','),
        !second.contains(','),
    ensures
        ({
            let port = match decimal_value(trim(second), 65535) {
                Ok(number) => number as u16,
                Err(_) => 443,
            };
            &&& list_row(first.push(',') + second) == Some((trim(first), port))
            &&& list_row(first.push(',') + (second.push(',') + more)) == Some((trim(first), port))
        }),
        list_row(first) is None,
{
    let at = Separator::Is(',');
    assert forall|i: int| 0 <= i < first.len() implies !at.splits_at(#[trigger] first[i]) by {
        if first[i] == ',' {
            assert(first.contains(','));
        }
    }
    assert forall|i: int| 0 <= i < second.len() implies !at.splits_at(#[trigger] second[i]) by {
        if second[i] == ',' {
            assert(second.contains(','));
        }
    }
    law_split_pieces(first, ',', second, at);
    law_split_pieces(second, ',', more, at);
    law_split_pieces(first, ',', second.push(',') + more, at);
    let (short, long) = (
        first.push(',') + second,
        first.push(',') + (second.push(',') + more),
    );
    let n = first.len() as int;
    assert(short[n] == ',' && long[n] == ',');
    lemma_not_blank(short, n);
    lemma_not_blank(long, n);
    assert(split(short, at) =~= seq![first, second]);
    assert(split(long, at)[0] == first && split(long, at)[1] == second);
}

/// A text with a character that is no white space is not blank.
proof fn lemma_not_blank(s: Seq<char>, i: int)
    requires
        0 <= i < s.len(),
        !is_space(s[i]),
    ensures
        trim(s).len() > 0,
    decreases s.len(),
{
    if is_space(s[0]) {
        assert(s.skip(1)[i - 1] == s[i]);
        lemma_not_blank(s.skip(1), i - 1);
    } else {
        lemma_end_kept(s);
    }
}

/// What starts with no white space is not lost at its end.
proof fn lemma_end_kept(s: Seq<char>)
    requires
        s.len() > 0,
        !is_space(s[0]),
    ensures
        crate::text::trim_end(s).len() > 0,
    decreases s.len(),
{
    if is_space(s.last()) {
        assert(s.drop_last()[0] == s[0]);
        lemma_end_kept(s.drop_last());
    }
}

/// Lines give their rows list by list.
proof fn lemma_rows_concat(a: Seq<Seq<char>>, b: Seq<Seq<char>>)
    ensures
        list_rows(a + b) == list_rows(a) + list_rows(b),
    decreases b.len(),
{
    if b.len() == 0 {
        assert(a + b =~= a);
        assert(list_rows(a) + list_rows(b) =~= list_rows(a));
    } else {
        lemma_rows_concat(a, b.drop_last());
        assert((a + b).drop_last() =~= a + b.drop_last());
        assert((a + b).last() == b.last());
        assert(list_rows(a + b) =~= list_rows(a) + list_rows(b));
    }
}

/// A list that is two lists one after another gives the rows of the first and then
/// those of the second.
pub proof fn law_lists_one_after_another(
    first: &str,
    second: &str,
    both: &str,
    a: Vec<(String, u16)>,
    b: Vec<(String, u16)>,
    all: Vec<(String, u16)>,
)
    requires
        first@.len() > 0,
        first@.last() == '\n',
        both@ == first@ + second@,
        call_ensures(read_csv_candidates, (first,), a),
        call_ensures(read_csv_candidates, (second,), b),
        call_ensures(read_csv_candidates, (both,), all),
    ensures
        row_contents(all@) == row_contents(a@) + row_contents(b@),
{
    law_lines_concat(first@, second@);
    lemma_rows_concat(lines(first@), lines(second@));
}

/// A list of one line gives one row if the line has a comma: what stands before the
/// first and before the second, without the white space around it.
pub proof fn law_list_of_one_line(
    first: Seq<char>,
    second: Seq<char>,
    list: &str,
    rows: Vec<(String, u16)>,
)
    requires
        !first.contains(','),
        !second.contains(','),
        !first.contains('\n'),
        !second.contains('\n'),
        list@ == first.push(',') + second,
        call_ensures(read_csv_candidates, (list,), rows),
    ensures
        rows@.len() == 1,
        rows@[0].0@ == trim(first),
        rows@[0].1 == match decimal_value(trim(second), 65535) {
            Ok(number) => number as u16,
            Err(_) => 443,
        },
{
    let row = list@;
    assert(!row.contains('\n')) by {
        if row.contains('\n') {
            let k = choose|k: int| 0 <= k < row.len() && row[k] == '\n';
            if k < first.len() {
                assert(first[k] == '\n');
            } else if k > first.len() {
                assert(second[k - first.len() - 1] == '\n');
            }
        }
    }
    law_lines(row, Seq::empty());
    law_row_of_line(first, second, Seq::empty());
    assert(seq![row].drop_last() =~= Seq::empty());
    assert(list_rows(Seq::empty()) =~= Seq::empty());
    assert(row_contents(rows@).len() == 1);
    assert(row_contents(rows@)[0] == (rows@[0].0@, rows@[0].1));
}

/// A text that is two texts one after another has the names of the first and then
/// those of the second; a line has the name in it without the white space around it,
/// unless it is blank.
pub proof fn law_names_line_by_line(first: Seq<char>, second: Seq<char>, row: Seq<char>)
    requires
        first.len() > 0,
        first.last() == '\n',
        !row.contains('\n'),
    ensures
        domain_names(first + second) == domain_names(first) + domain_names(second),
        domain_names(row) == if trim(row).len() > 0 {
            seq![trim(row)]
        } else {
            Seq::empty()
        },
{
    let f = |line: Seq<char>| trim(line);
    law_lines_concat(first, second);
    law_not_empty_concat(lines(first).map_values(f), lines(second).map_values(f));
    assert((lines(first) + lines(second)).map_values(f) =~= lines(first).map_values(f) + lines(
        second,
    ).map_values(f));
    law_lines(row, Seq::empty());
    if row.len() > 0 {
        assert(lines(row).map_values(f) =~= seq![trim(row)]);
        law_not_empty_concat(seq![trim(row)], Seq::empty());
    } else {
        assert(lines(row).map_values(f) =~= Seq::empty());
        assert(not_empty(Seq::empty()) =~= Seq::empty());
    }
}

/// The names in a text are all of them, in order.
pub proof fn law_private_domains(text: &str, names: Vec<String>)
    requires
        call_ensures(private_domains, (text,), names),
    ensures
        names@.len() == domain_names(text@).len(),
        forall|i: int|
            0 <= i < names@.len() ==> (#[trigger] names@[i])@ == domain_names(text@)[i],
{
    assert forall|i: int| 0 <= i < names@.len() implies (#[trigger] names@[i])@ == domain_names(
        text@,
    )[i] by {
        assert(texts(names@)[i] == names@[i]@);
    }
    assert(texts(names@).len() == names@.len());
}

/// A name is looked up whole, with port 443 after a colon.
pub proof fn law_lookup_target(domain: &str, target: String)
    requires
        call_ensures(lookup_target, (domain,), target),
    ensures
        target@.len() == domain@.len() + 4,
        target@.take(domain@.len() as int) == domain@,
        target@.skip(domain@.len() as int) == seq![':', '4', '4', '3'],
{
    reveal_strlit(":443");
    assert(target@.take(domain@.len() as int) =~= domain@);
    assert(target@.skip(domain@.len() as int) =~= seq![':', '4', '4', '3']);
}

/// Every address that a name resolved to is given, in order, as text that reads
/// back as it.
pub proof fn law_every_resolved_address(addresses: Vec<IpAddr>, result: Option<Vec<String>>)
    requires
        call_ensures(resolved_ips, (&addresses,), result),
    ensures
        result is None <==> addresses@.len() == 0,
        result matches Some(ips) ==> {
            &&& ips@.len() == addresses@.len()
            &&& forall|i: int|
                0 <= i < ips@.len() ==> ip_value((#[trigger] ips@[i])@) == Some(addresses@[i])
        },
{
    if let Some(ips) = result {
        assert(texts(ips@).len() == ips@.len());
        assert forall|i: int| 0 <= i < ips@.len() implies ip_value((#[trigger] ips@[i])@) == Some(
            addresses@[i],
        ) by {
            assert(texts(ips@)[i] == ips@[i]@);
            law_ip_round_trip(addresses@[i]);
        }
    }
}

/// The machine's own address is the reply between the white space at its ends, and
/// `0.0.0.0` without a reply.
pub proof fn law_own_address(
    before: Seq<char>,
    address: Seq<char>,
    after: Seq<char>,
    reply: Option<&str>,
    ip: String,
)
    requires
        forall|i: int| 0 <= i < before.len() ==> is_space(#[trigger] before[i]),
        forall|i: int| 0 <= i < after.len() ==> is_space(#[trigger] after[i]),
        address.len() > 0 ==> !is_space(address[0]) && !is_space(address.last()),
        reply matches Some(text) ==> text@ == before + address + after,
        call_ensures(known_self_ip, (reply,), ip),
    ensures
        reply is Some ==> ip@ == address,
        reply is None ==> ip@ == seq!['0', '.', '0', '.', '0', '.', '0'],
{
    reveal_strlit("0.0.0.0");
    law_trim(before, address, after);
    if reply is None {
        assert(ip@ =~= seq!['0', '.', '0', '.', '0', '.', '0']);
    }
}

} // verus!
