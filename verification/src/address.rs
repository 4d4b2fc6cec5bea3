//! Internet addresses as numbers, and the text that stands for them.

use vstd::prelude::*;

use crate::number::{decimal_chars, hex_chars, parse_decimal, parse_hex_digit};
#[allow(unused_imports)]
use crate::number::{
    decimal, hex, hex_digit_value, hex_value, is_digit, law_decimal_exact, lemma_decimal_digits,
    lemma_hex_round_trip, lemma_scan_decimal, scan_decimal,
};
use crate::text::{
    append_chars, find_chars, join_chars, split_chars, subrange, to_chars, to_text, Separator,
};
#[allow(unused_imports)]
use crate::text::{
    contents, find, first_at, join, law_join_of_split, law_split_of_join, lemma_find_at,
    lemma_split_extend, occurs_at, split,
};

verus! {

/// An address: its bits as one number, the first byte highest.
#[derive(Clone, Copy, Debug, PartialEq, Eq, Structural)]
pub enum IpAddr {
    /// A 32-bit address.
    V4(u32),
    /// A 128-bit address.
    V6(u128),
}

/// The byte that `s` writes: one to three decimal digits, without a leading zero
/// unless it is the only digit.
pub open spec fn octet(s: Seq<char>) -> Option<nat> {
    if 1 <= s.len() <= 3 && (s.len() > 1 ==> s[0] != '0') {
        match scan_decimal(s, 255) {
            Ok(value) => Some(value),
            Err(_) => None,
        }
    } else {
        None
    }
}

/// The number made of four bytes, the first highest.
pub open spec fn four_bytes(a: nat, b: nat, c: nat, d: nat) -> nat {
    ((a * 256 + b) * 256 + c) * 256 + d
}

/// The address that `s` writes as four bytes with dots between them.
pub open spec fn v4_value(s: Seq<char>) -> Option<u32> {
    let parts = split(s, Separator::Is('.'));
    if parts.len() == 4 {
        match (octet(parts[0]), octet(parts[1]), octet(parts[2]), octet(parts[3])) {
            (Some(a), Some(b), Some(c), Some(d)) => Some(four_bytes(a, b, c, d) as u32),
            _ => None,
        }
    } else {
        None
    }
}

/// The four bytes of an address, in base ten.
pub open spec fn v4_octets(address: u32) -> Seq<Seq<char>> {
    seq![
        decimal((address / 0x1000000) as nat),
        decimal((address / 0x10000 % 0x100) as nat),
        decimal((address / 0x100 % 0x100) as nat),
        decimal((address % 0x100) as nat),
    ]
}

/// The text of a 32-bit address: its four bytes with dots between them.
pub open spec fn v4_text(address: u32) -> Seq<char> {
    join(v4_octets(address), '.')
}

/// Reads one byte.
fn parse_octet(s: &[char]) -> (result: Option<u32>)
    ensures
        match result {
            Some(value) => octet(s@) == Some(value as nat) && value <= 255,
            None => octet(s@) is None,
        },
{
    if s.len() < 1 || s.len() > 3 || (s.len() > 1 && s[0] == '0') {
        return None;
    }
    if s[0] == '+' {
        proof {
            lemma_no_digit(s@, 0, 255);
        }
        return None;
    }
    match parse_decimal(s, 255) {
        Ok(value) => Some(value),
        Err(_) => None,
    }
}

/// A text with a character that is not a digit is no number.
proof fn lemma_no_digit(s: Seq<char>, i: int, max: nat)
    requires
        0 <= i < s.len(),
        !is_digit(s[i]),
    ensures
        scan_decimal(s, max) is Err,
    decreases s.len(),
{
    if i < s.len() - 1 {
        lemma_no_digit(s.drop_last(), i, max);
    }
}

/// Reads a 32-bit address.
pub fn parse_v4(s: &[char]) -> (result: Option<u32>)
    ensures
        result == v4_value(s@),
{
    let parts: Vec<Vec<char>> = split_chars(s, Separator::Is('.'));
    proof {
        assert forall|k: int| 0 <= k < parts@.len() implies contents(parts@)[k]
            == #[trigger] parts@[k]@ by {}
    }
    if parts.len() != 4 {
        return None;
    }
    match (
        parse_octet(&parts[0]),
        parse_octet(&parts[1]),
        parse_octet(&parts[2]),
        parse_octet(&parts[3]),
    ) {
        (Some(a), Some(b), Some(c), Some(d)) => Some(((a * 256 + b) * 256 + c) * 256 + d),
        _ => None,
    }
}

/// Writes a 32-bit address.
pub fn v4_chars(address: u32) -> (chars: Vec<char>)
    ensures
        chars@ == v4_text(address),
{
    let mut parts: Vec<Vec<char>> = Vec::new();
    parts.push(decimal_chars((address / 0x1000000) as u128));
    parts.push(decimal_chars((address / 0x10000 % 0x100) as u128));
    parts.push(decimal_chars((address / 0x100 % 0x100) as u128));
    parts.push(decimal_chars((address % 0x100) as u128));
    assert(contents(parts@) =~= v4_octets(address));
    join_chars(&parts, '.')
}

/// A byte written in base ten reads back as that byte, and holds no dot and no
/// colon.
proof fn lemma_octet_text(n: nat)
    requires
        n < 256,
    ensures
        octet(decimal(n)) == Some(n),
        !decimal(n).contains('.'),
        !decimal(n).contains(':'),
{
    lemma_decimal_digits(n);
    lemma_scan_decimal(n, 255);
    assert forall|i: int| 0 <= i < decimal(n).len() implies decimal(n)[i] != '.' && decimal(n)[i]
        != ':' by {
        assert(is_digit(decimal(n)[i]));
    }
}

/// The text of a 32-bit address reads back as that address.
pub proof fn law_v4_round_trip(address: u32)
    ensures
        v4_value(v4_text(address)) == Some(address),
{
    let parts = v4_octets(address);
    lemma_octet_text((address / 0x1000000) as nat);
    lemma_octet_text((address / 0x10000 % 0x100) as nat);
    lemma_octet_text((address / 0x100 % 0x100) as nat);
    lemma_octet_text((address % 0x100) as nat);
    law_split_of_join(parts, '.');
}

/// The sixteen-bit group that `s` writes: one to four hexadecimal digits.
pub open spec fn group(s: Seq<char>) -> Option<u16> {
    if 1 <= s.len() <= 4 {
        match hex_value(s) {
            Some(value) => Some(value as u16),
            None => None,
        }
    } else {
        None
    }
}

/// The groups that a list of fields writes, if each field writes one.
pub open spec fn groups_of_fields(fields: Seq<Seq<char>>) -> Option<Seq<u16>>
    decreases fields.len(),
{
    if fields.len() == 0 {
        Some(Seq::empty())
    } else {
        match (groups_of_fields(fields.drop_last()), group(fields.last())) {
            (Some(front), Some(last)) => Some(front.push(last)),
            _ => None,
        }
    }
}

/// The groups written in `s` with colons between them; no text writes no groups.
pub open spec fn plain_groups(s: Seq<char>) -> Option<Seq<u16>> {
    if s.len() == 0 {
        Some(Seq::empty())
    } else {
        groups_of_fields(split(s, Separator::Is(':')))
    }
}

/// As `plain_groups`, but the last field may be a 32-bit address with dots, which
/// stands for two groups.
pub open spec fn closing_groups(s: Seq<char>) -> Option<Seq<u16>> {
    if s.len() == 0 {
        Some(Seq::empty())
    } else {
        let fields = split(s, Separator::Is(':'));
        match v4_value(fields.last()) {
            Some(low) => match groups_of_fields(fields.drop_last()) {
                Some(front) => Some(
                    front.push((low / 0x10000) as u16).push((low % 0x10000) as u16),
                ),
                None => None,
            },
            None => groups_of_fields(fields),
        }
    }
}

/// `n` groups that are zero.
pub open spec fn zero_groups(n: nat) -> Seq<u16> {
    Seq::new(n, |i: int| 0u16)
}

/// The number that groups make, the first highest.
pub open spec fn groups_value(groups: Seq<u16>) -> nat
    decreases groups.len(),
{
    if groups.len() == 0 {
        0
    } else {
        groups_value(groups.drop_last()) * 0x10000 + groups.last() as nat
    }
}

/// The mark that stands for a run of zero groups.
pub open spec fn gap() -> Seq<char> {
    seq![':', ':']
}

/// The eight groups that `s` writes: all eight, or fewer on both sides of one
/// double colon that stands for one or more zero groups.
pub open spec fn v6_groups(s: Seq<char>) -> Option<Seq<u16>> {
    match find(s, gap()) {
        None => match closing_groups(s) {
            Some(groups) => if groups.len() == 8 {
                Some(groups)
            } else {
                None
            },
            None => None,
        },
        Some(i) => match (plain_groups(s.take(i)), closing_groups(s.skip(i + 2))) {
            (Some(head), Some(tail)) => if head.len() + tail.len() <= 7 {
                Some(head + zero_groups((8 - head.len() - tail.len()) as nat) + tail)
            } else {
                None
            },
            _ => None,
        },
    }
}

/// The 128-bit address that `s` writes.
pub open spec fn v6_value(s: Seq<char>) -> Option<u128> {
    match v6_groups(s) {
        Some(groups) => Some(groups_value(groups) as u128),
        None => None,
    }
}

/// Reads one group.
fn parse_group(s: &[char]) -> (result: Option<u16>)
    ensures
        result == group(s@),
{
    if s.len() < 1 || s.len() > 4 {
        return None;
    }
    let mut value: u32 = 0;
    let mut limit: u32 = 1;
    for i in 0..s.len()
        invariant
            s@.len() <= 4,
            hex_value(s@.take(i as int)) == Some(value as nat),
            value < limit,
            i == 0 ==> limit == 1,
            i == 1 ==> limit == 0x10,
            i == 2 ==> limit == 0x100,
            i == 3 ==> limit == 0x1000,
            i == 4 ==> limit == 0x10000,
    {
        assert(s@.take(i + 1).drop_last() =~= s@.take(i as int));
        match parse_hex_digit(s[i]) {
            Some(low) => {
                value = value * 16 + low;
                limit = limit * 16;
            },
            None => {
                proof {
                    lemma_no_hex(s@, i as int);
                }
                return None;
            },
        }
    }
    assert(s@.take(s@.len() as int) =~= s@);
    Some(value as u16)
}

/// A text with a character that is not a hexadecimal digit is no number.
proof fn lemma_no_hex(s: Seq<char>, i: int)
    requires
        0 <= i < s.len(),
        hex_digit_value(s[i]) is None,
    ensures
        hex_value(s) is None,
    decreases s.len(),
{
    if i < s.len() - 1 {
        lemma_no_hex(s.drop_last(), i);
    }
}

/// Reads the first `count` fields as groups.
fn parse_fields(fields: &Vec<Vec<char>>, count: usize) -> (result: Option<Vec<u16>>)
    requires
        count <= fields@.len(),
    ensures
        match result {
            Some(groups) => groups_of_fields(contents(fields@).take(count as int)) == Some(groups@),
            None => groups_of_fields(contents(fields@).take(count as int)) is None,
        },
{
    let mut groups: Vec<u16> = Vec::new();
    let ghost all = contents(fields@);
    for i in 0..count
        invariant
            count <= fields@.len(),
            all == contents(fields@),
            groups_of_fields(all.take(i as int)) == Some(groups@),
    {
        assert(all.take(i + 1).drop_last() =~= all.take(i as int));
        assert(all.take(i + 1).last() == fields@[i as int]@);
        match parse_group(&fields[i]) {
            Some(value) => {
                groups.push(value);
            },
            None => {
                proof {
                    lemma_no_group(all, i as int, count as int);
                }
                return None;
            },
        }
    }
    Some(groups)
}

/// Fields of which one writes no group write no list of groups.
proof fn lemma_no_group(fields: Seq<Seq<char>>, i: int, count: int)
    requires
        0 <= i < count <= fields.len(),
        group(fields[i]) is None,
    ensures
        groups_of_fields(fields.take(count)) is None,
    decreases count,
{
    assert(fields.take(count).drop_last() =~= fields.take(count - 1));
    if i < count - 1 {
        lemma_no_group(fields, i, count - 1);
    }
}

/// Reads groups with colons between them.
fn parse_plain(s: &[char]) -> (result: Option<Vec<u16>>)
    ensures
        match result {
            Some(groups) => plain_groups(s@) == Some(groups@),
            None => plain_groups(s@) is None,
        },
{
    if s.len() == 0 {
        let groups: Vec<u16> = Vec::new();
        assert(groups@ =~= Seq::empty());
        return Some(groups);
    }
    let fields: Vec<Vec<char>> = split_chars(s, Separator::Is(':'));
    assert(contents(fields@).take(fields@.len() as int) =~= contents(fields@));
    parse_fields(&fields, fields.len())
}

/// Reads groups with colons between them, of which the last two may be written
/// as a 32-bit address.
fn parse_closing(s: &[char]) -> (result: Option<Vec<u16>>)
    ensures
        match result {
            Some(groups) => closing_groups(s@) == Some(groups@),
            None => closing_groups(s@) is None,
        },
{
    if s.len() == 0 {
        let groups: Vec<u16> = Vec::new();
        assert(groups@ =~= Seq::empty());
        return Some(groups);
    }
    let fields: Vec<Vec<char>> = split_chars(s, Separator::Is(':'));
    let n: usize = fields.len();
    assert(contents(fields@).last() == fields@[n - 1]@);
    assert(contents(fields@).take(n as int) =~= contents(fields@));
    assert(contents(fields@).take(n - 1) =~= contents(fields@).drop_last());
    match parse_v4(&fields[n - 1]) {
        Some(low) => match parse_fields(&fields, n - 1) {
            Some(front) => {
                let mut groups: Vec<u16> = front;
                groups.push((low / 0x10000) as u16);
                groups.push((low % 0x10000) as u16);
                Some(groups)
            },
            None => None,
        },
        None => parse_fields(&fields, n),
    }
}

/// The number that eight groups make.
fn value_of_groups(groups: &Vec<u16>) -> (value: u128)
    requires
        groups@.len() == 8,
    ensures
        value == groups_value(groups@),
{
    let mut value: u128 = 0;
    let mut limit: u128 = 1;
    for i in 0..8
        invariant
            groups@.len() == 8,
            value == groups_value(groups@.take(i as int)),
            value < limit || i == 8,
            i == 0 ==> limit == 1,
            i == 1 ==> limit == 0x10000,
            i == 2 ==> limit == 0x1_0000_0000,
            i == 3 ==> limit == 0x1_0000_0000_0000,
            i == 4 ==> limit == 0x1_0000_0000_0000_0000,
            i == 5 ==> limit == 0x1_0000_0000_0000_0000_0000,
            i == 6 ==> limit == 0x1_0000_0000_0000_0000_0000_0000,
            i == 7 ==> limit == 0x1_0000_0000_0000_0000_0000_0000_0000,
    {
        assert(groups@.take(i + 1).drop_last() =~= groups@.take(i as int));
        value = value * 0x10000 + groups[i] as u128;
        if i < 7 {
            limit = limit * 0x10000;
        }
    }
    assert(groups@.take(8) =~= groups@);
    value
}

/// Reads a 128-bit address.
pub fn parse_v6(s: &[char]) -> (result: Option<u128>)
    ensures
        result == v6_value(s@),
{
    let mut mark: Vec<char> = Vec::new();
    mark.push(':');
    mark.push(':');
    assert(mark@ =~= gap());
    match find_chars(s, &mark) {
        None => match parse_closing(s) {
            Some(groups) => if groups.len() == 8 {
                Some(value_of_groups(&groups))
            } else {
                None
            },
            None => None,
        },
        Some(i) => {
            let front: Vec<char> = subrange(s, 0, i);
            let n: usize = s.len();
            let back: Vec<char> = subrange(s, i + 2, n);
            assert(front@ =~= s@.take(i as int));
            assert(back@ =~= s@.skip(i + 2));
            match (parse_plain(&front), parse_closing(&back)) {
                (Some(head), Some(tail)) => {
                    if head.len() > 7 || tail.len() > 7 - head.len() {
                        return None;
                    }
                    let mut groups: Vec<u16> = head;
                    let ghost first = groups@;
                    let zeros: usize = 8 - groups.len() - tail.len();
                    for k in 0..zeros
                        invariant
                            groups@ =~= first + zero_groups(k as nat),
                    {
                        groups.push(0);
                    }
                    let ghost filled = groups@;
                    for k in 0..tail.len()
                        invariant
                            groups@ =~= filled + tail@.take(k as int),
                    {
                        groups.push(tail[k]);
                    }
                    assert(groups@ =~= first + zero_groups(zeros as nat) + tail@);
                    Some(value_of_groups(&groups))
                },
                _ => None,
            }
        },
    }
}

/// The last `n` groups of a number, the first highest.
pub open spec fn groups_of(value: nat, n: nat) -> Seq<u16>
    decreases n,
{
    if n == 0 {
        Seq::empty()
    } else {
        groups_of(value / 0x10000, (n - 1) as nat).push((value % 0x10000) as u16)
    }
}

/// The eight groups of an address.
pub open spec fn v6_parts(address: u128) -> Seq<u16> {
    groups_of(address as nat, 8)
}

/// Whether the `len` groups from `start` on are all zero.
pub open spec fn zero_run(groups: Seq<u16>, start: int, len: int) -> bool {
    &&& 0 <= start
    &&& 0 <= len
    &&& start + len <= groups.len()
    &&& forall|i: int| start <= i < start + len ==> #[trigger] groups[i] == 0
}

/// Whether no run of zero groups is longer than this one, and none as long
/// starts before it.
pub open spec fn longest_run(groups: Seq<u16>, start: int, len: int) -> bool {
    &&& zero_run(groups, start, len)
    &&& forall|s: int, l: int| #[trigger]
        zero_run(groups, s, l) ==> l <= len && (l == len ==> start <= s)
}

/// The first of the longest runs of zero groups: its start and its length.
pub open spec fn widest_gap(groups: Seq<u16>) -> (int, int) {
    choose|run: (int, int)| longest_run(groups, run.0, run.1)
}

/// Groups in base sixteen, with colons between them.
pub open spec fn group_list(groups: Seq<u16>) -> Seq<char> {
    join(groups.map_values(|value: u16| hex(value as nat)), ':')
}

/// Whether the address stands for a 32-bit one: eighty zero bits, then sixteen
/// ones.
pub open spec fn is_mapped(groups: Seq<u16>) -> bool {
    zero_run(groups, 0, 5) && groups[5] == 0xffff
}

/// The start of the text of an address that stands for a 32-bit one.
pub open spec fn mapped_start() -> Seq<char> {
    seq![':', ':', 'f', 'f', 'f', 'f', ':']
}

/// The text of a 128-bit address. An address that stands for a 32-bit one ends in
/// that one's text. In any other, a double colon takes the place of the first of
/// the longest runs of zero groups, if that run has two groups or more.
pub open spec fn v6_text(address: u128) -> Seq<char> {
    let groups = v6_parts(address);
    if is_mapped(groups) {
        mapped_start() + v4_text((address % 0x1_0000_0000) as u32)
    } else {
        let (start, len) = widest_gap(groups);
        if len > 1 {
            group_list(groups.take(start)) + gap() + group_list(groups.skip(start + len))
        } else {
            group_list(groups)
        }
    }
}

/// The longest run that starts first is the only one.
proof fn lemma_widest_gap(groups: Seq<u16>, start: int, len: int)
    requires
        longest_run(groups, start, len),
    ensures
        widest_gap(groups) == (start, len),
{
    let run = (start, len);
    assert(longest_run(groups, run.0, run.1));
    let other = widest_gap(groups);
    assert(longest_run(groups, other.0, other.1));
    assert(zero_run(groups, other.0, other.1));
    assert(zero_run(groups, start, len));
}

/// Taking a number apart gives as many groups as asked for.
proof fn lemma_groups_len(value: nat, n: nat)
    ensures
        groups_of(value, n).len() == n,
    decreases n,
{
    if n > 0 {
        lemma_groups_len(value / 0x10000, (n - 1) as nat);
    }
}

/// The eight groups of an address.
fn split_groups(address: u128) -> (groups: Vec<u16>)
    ensures
        groups@ == v6_parts(address),
        groups@.len() == 8,
{
    let groups: Vec<u16> = low_groups(address, 8);
    proof {
        lemma_groups_len(address as nat, 8);
    }
    groups
}

/// The last `n` groups of a number.
fn low_groups(value: u128, n: usize) -> (groups: Vec<u16>)
    ensures
        groups@ == groups_of(value as nat, n as nat),
    decreases n,
{
    if n == 0 {
        let groups: Vec<u16> = Vec::new();
        assert(groups@ =~= Seq::empty());
        groups
    } else {
        let mut groups: Vec<u16> = low_groups(value / 0x10000, n - 1);
        groups.push((value % 0x10000) as u16);
        groups
    }
}

/// The first of the longest runs of zero groups.
fn find_widest_gap(groups: &Vec<u16>) -> (run: (usize, usize))
    ensures
        widest_gap(groups@) == (run.0 as int, run.1 as int),
        longest_run(groups@, run.0 as int, run.1 as int),
{
    let mut start: usize = 0;
    let mut len: usize = 0;
    let mut current: usize = 0;
    for i in 0..groups.len()
        invariant
            current <= i,
            start + len <= i,
            zero_run(groups@, start as int, len as int),
            zero_run(groups@, i - current, current as int),
            i - current > 0 ==> groups@[i - current - 1] != 0,
            forall|s: int, l: int|
                #![trigger zero_run(groups@, s, l)]
                zero_run(groups@, s, l) && s + l <= i ==> l <= len && (l == len ==> start <= s),
    {
        let ghost (old_start, old_len, old_current) = (start, len, current);
        if groups[i] == 0 {
            current = current + 1;
            if current > len {
                start = i + 1 - current;
                len = current;
            }
        } else {
            current = 0;
        }
        assert(zero_run(groups@, i + 1 - current, current as int));
        assert(zero_run(groups@, start as int, len as int));
        assert forall|s: int, l: int| #![trigger zero_run(groups@, s, l)] zero_run(groups@, s, l)
            && s + l <= i + 1 implies l <= len && (l == len ==> start <= s) by {
            if s + l == i + 1 && l > 0 {
                assert(groups@[i as int] == 0);
                if s < i + 1 - current {
                    assert(groups@[i - old_current - 1] == 0);
                }
            }
        }
    }
    proof {
        lemma_widest_gap(groups@, start as int, len as int);
    }
    (start, len)
}

/// Writes the groups from `from` up to `to`, with colons between them.
fn group_list_chars(groups: &Vec<u16>, from: usize, to: usize) -> (chars: Vec<char>)
    requires
        from <= to <= groups@.len(),
    ensures
        chars@ == group_list(groups@.subrange(from as int, to as int)),
{
    let mut parts: Vec<Vec<char>> = Vec::new();
    for i in from..to
        invariant
            from <= to <= groups@.len(),
            contents(parts@) =~= groups@.subrange(from as int, i as int).map_values(
                |value: u16| hex(value as nat),
            ),
    {
        let ghost before = parts@;
        let part: Vec<char> = hex_chars(groups[i]);
        let ghost written = part@;
        parts.push(part);
        assert(contents(parts@) =~= contents(before).push(written));
    }
    join_chars(&parts, ':')
}

/// Writes a 128-bit address.
pub fn v6_chars(address: u128) -> (chars: Vec<char>)
    ensures
        chars@ == v6_text(address),
{
    let groups: Vec<u16> = split_groups(address);
    let mapped: bool = groups[0] == 0 && groups[1] == 0 && groups[2] == 0 && groups[3] == 0
        && groups[4] == 0 && groups[5] == 0xffff;
    assert(mapped == is_mapped(groups@)) by {
        if zero_run(groups@, 0, 5) {
            assert(groups@[0] == 0 && groups@[1] == 0 && groups@[2] == 0 && groups@[3] == 0
                && groups@[4] == 0);
        }
    }
    if mapped {
        let mut chars: Vec<char> = Vec::new();
        chars.push(':');
        chars.push(':');
        chars.push('f');
        chars.push('f');
        chars.push('f');
        chars.push('f');
        chars.push(':');
        assert(chars@ =~= mapped_start());
        let low: Vec<char> = v4_chars((address % 0x1_0000_0000) as u32);
        append_chars(&mut chars, &low);
        return chars;
    }
    let (start, len) = find_widest_gap(&groups);
    if len > 1 {
        let mut chars: Vec<char> = group_list_chars(&groups, 0, start);
        assert(groups@.subrange(0, start as int) =~= groups@.take(start as int));
        let ghost head = chars@;
        chars.push(':');
        chars.push(':');
        assert(chars@ =~= head + gap());
        let tail: Vec<char> = group_list_chars(&groups, start + len, groups.len());
        assert(groups@.subrange(start + len, groups@.len() as int) =~= groups@.skip(start + len));
        append_chars(&mut chars, &tail);
        chars
    } else {
        assert(groups@.subrange(0, groups@.len() as int) =~= groups@);
        group_list_chars(&groups, 0, groups.len())
    }
}

/// One more than the largest number that `n` groups can hold.
spec fn group_limit(n: nat) -> nat
    decreases n,
{
    if n == 0 {
        1
    } else {
        0x10000 * group_limit((n - 1) as nat)
    }
}

/// A number that `n` groups can hold is what its `n` groups make.
proof fn lemma_groups_value(value: nat, n: nat)
    requires
        value < group_limit(n),
    ensures
        groups_value(groups_of(value, n)) == value,
    decreases n,
{
    if n > 0 {
        let high = value / 0x10000;
        assert(high < group_limit((n - 1) as nat));
        lemma_groups_value(high, (n - 1) as nat);
        assert(groups_of(value, n).drop_last() =~= groups_of(high, (n - 1) as nat));
    }
}

/// An address is what its eight groups make.
proof fn lemma_v6_parts(address: u128)
    ensures
        v6_parts(address).len() == 8,
        groups_value(v6_parts(address)) == address,
{
    lemma_groups_len(address as nat, 8);
    assert(group_limit(8) == 0x1_0000_0000_0000_0000_0000_0000_0000_0000) by {
        reveal_with_fuel(group_limit, 9);
    }
    lemma_groups_value(address as nat, 8);
}

/// A field of a list: some text without a colon.
spec fn is_field(s: Seq<char>) -> bool {
    s.len() > 0 && !s.contains(':')
}

/// Whether no two colons of `s` stand side by side.
spec fn no_gap(s: Seq<char>) -> bool {
    forall|i: int| 0 <= i < s.len() - 1 ==> !(#[trigger] s[i] == ':' && s[i + 1] == ':')
}

/// A list of fields holds no double colon, and neither starts nor ends in one
/// colon.
proof fn lemma_field_list(fields: Seq<Seq<char>>)
    requires
        fields.len() > 0,
        forall|i: int| 0 <= i < fields.len() ==> is_field(#[trigger] fields[i]),
    ensures
        join(fields, ':').len() > 0,
        join(fields, ':')[0] != ':',
        join(fields, ':').last() != ':',
        no_gap(join(fields, ':')),
    decreases fields.len(),
{
    let last = fields[fields.len() - 1];
    assert(is_field(last));
    assert forall|i: int| 0 <= i < last.len() implies #[trigger] last[i] != ':' by {
        assert(last.contains(last[i]));
    }
    if fields.len() > 1 {
        let front = fields.drop_last();
        assert forall|i: int| 0 <= i < front.len() implies is_field(#[trigger] front[i]) by {
            assert(front[i] == fields[i]);
        }
        lemma_field_list(front);
        let before = join(front, ':');
        let whole = before.push(':') + last;
        assert(join(fields, ':') =~= whole);
        assert forall|i: int| 0 <= i < whole.len() - 1 implies !(#[trigger] whole[i] == ':'
            && whole[i + 1] == ':') by {
            if i < before.len() - 1 {
                assert(whole[i] == before[i] && whole[i + 1] == before[i + 1]);
            } else if i == before.len() - 1 {
                assert(whole[i] == before.last());
            } else {
                assert(whole[i + 1] == last[i + 1 - before.len() - 1]);
            }
        }
        assert(whole.last() == last[last.len() - 1]);
        assert(whole[0] == before[0]);
    }
}

/// Text without two colons side by side holds no double colon.
proof fn lemma_no_gap(s: Seq<char>)
    requires
        no_gap(s),
    ensures
        find(s, gap()) is None,
{
    assert forall|i: int| !first_at(s, gap(), i) by {
        if occurs_at(s, gap(), i) {
            let part = s.subrange(i, i + 2);
            assert(part[0] == gap()[0] && part[1] == gap()[1]);
            assert(s[i] == ':' && s[i + 1] == ':');
        }
    }
}

/// A double colon between texts that hold none is found where it stands.
proof fn lemma_gap_found(head: Seq<char>, tail: Seq<char>)
    requires
        no_gap(head),
        head.len() > 0 ==> head.last() != ':',
    ensures
        find(head + gap() + tail, gap()) == Some(head.len() as int),
{
    let s = head + gap() + tail;
    let n = head.len() as int;
    assert(s.subrange(n, n + 2) =~= gap());
    assert forall|j: int| 0 <= j < n implies !occurs_at(s, gap(), j) by {
        if occurs_at(s, gap(), j) {
            let part = s.subrange(j, j + 2);
            assert(part[0] == gap()[0] && part[1] == gap()[1]);
            assert(s[j] == ':' && s[j + 1] == ':');
            assert(s[j] == head[j]);
            if j < n - 1 {
                assert(s[j + 1] == head[j + 1]);
            }
        }
    }
    lemma_find_at(s, gap(), n);
}

/// A group in base sixteen is a field that reads back as that group, and is not a
/// 32-bit address.
proof fn lemma_group_text(value: u16)
    ensures
        group(hex(value as nat)) == Some(value),
        is_field(hex(value as nat)),
        v4_value(hex(value as nat)) is None,
{
    let s = hex(value as nat);
    lemma_hex_round_trip(value as nat);
    assert forall|i: int| 0 <= i < s.len() implies #[trigger] s[i] != ':' && s[i] != '.' by {
        assert(hex_digit_value(s[i]) is Some);
    }
    let dot = Separator::Is('.');
    lemma_split_extend(Seq::empty(), s, dot);
    assert(Seq::<char>::empty() + s =~= s);
    assert(split(Seq::empty(), dot) =~= seq![Seq::<char>::empty()]);
    assert(split(s, dot).len() == 1);
}

/// A list of groups reads back as those groups, at the start of an address and
/// at its end.
proof fn lemma_group_list(groups: Seq<u16>)
    ensures
        plain_groups(group_list(groups)) == Some(groups),
        closing_groups(group_list(groups)) == Some(groups),
        no_gap(group_list(groups)),
        group_list(groups).len() > 0 ==> group_list(groups).last() != ':',
{
    let fields = groups.map_values(|value: u16| hex(value as nat));
    let s = group_list(groups);
    if groups.len() == 0 {
        assert(groups =~= Seq::empty());
    } else {
        assert forall|i: int| 0 <= i < fields.len() implies is_field(#[trigger] fields[i])
            && !fields[i].contains(':') by {
            lemma_group_text(groups[i]);
        }
        lemma_field_list(fields);
        law_split_of_join(fields, ':');
        lemma_groups_of_fields(groups);
        lemma_group_text(groups[groups.len() - 1]);
    }
}

/// Groups in base sixteen read back as those groups.
proof fn lemma_groups_of_fields(groups: Seq<u16>)
    ensures
        groups_of_fields(groups.map_values(|value: u16| hex(value as nat))) == Some(groups),
    decreases groups.len(),
{
    let fields = groups.map_values(|value: u16| hex(value as nat));
    if groups.len() == 0 {
        assert(groups =~= Seq::empty());
    } else {
        let front = groups.drop_last();
        lemma_groups_of_fields(front);
        lemma_group_text(groups.last());
        assert(fields.drop_last() =~= front.map_values(|value: u16| hex(value as nat)));
        assert(front.push(groups.last()) =~= groups);
    }
}

/// There is always a longest run of zero groups, if only one of no groups.
proof fn lemma_some_gap(groups: Seq<u16>, n: int) -> (run: (int, int))
    requires
        0 <= n <= groups.len(),
    ensures
        zero_run(groups, run.0, run.1),
        run.0 + run.1 <= n,
        forall|s: int, l: int|
            #![trigger zero_run(groups, s, l)]
            zero_run(groups, s, l) && s + l <= n ==> l <= run.1 && (l == run.1 ==> run.0 <= s),
    decreases n,
{
    if n == 0 {
        assert(zero_run(groups, 0, 0));
        (0, 0)
    } else {
        let before = lemma_some_gap(groups, n - 1);
        if exists|s: int, l: int| #[trigger] zero_run(groups, s, l) && s + l == n && l > before.1 {
            let best = lemma_longest_ending(groups, n, n);
            let (s, l) = choose|s: int, l: int| #[trigger]
                zero_run(groups, s, l) && s + l == n && l > before.1;
            assert(zero_run(groups, s, l));
            (n - best, best)
        } else {
            assert forall|s: int, l: int|
                #![trigger zero_run(groups, s, l)]
                zero_run(groups, s, l) && s + l <= n implies l <= before.1 && (l == before.1
                ==> before.0 <= s) by {
                if s + l == n {
                    assert(l <= before.1);
                }
            }
            before
        }
    }
}

/// The length of the longest run of zero groups that ends before `n`, of those
/// no longer than `most`.
proof fn lemma_longest_ending(groups: Seq<u16>, n: int, most: int) -> (len: int)
    requires
        0 <= most <= n <= groups.len(),
    ensures
        0 <= len <= most,
        zero_run(groups, n - len, len),
        forall|l: int| #![trigger zero_run(groups, n - l, l)]
            l <= most && zero_run(groups, n - l, l) ==> l <= len,
        forall|s: int, l: int| #![trigger zero_run(groups, s, l)]
            l <= most && s + l == n && zero_run(groups, s, l) ==> l <= len,
    decreases most,
{
    if zero_run(groups, n - most, most) {
        most
    } else {
        assert(most > 0) by {
            if most == 0 {
                assert(zero_run(groups, n - 0, 0));
            }
        }
        let len = lemma_longest_ending(groups, n, most - 1);
        assert forall|s: int, l: int|
            #![trigger zero_run(groups, s, l)]
            l <= most && s + l == n && zero_run(groups, s, l) implies l <= len by {
            assert(s == n - l);
        }
        len
    }
}

/// Groups on both sides of a double colon read back as those groups with zeros
/// between them.
proof fn lemma_gap_reading(front: Seq<char>, back: Seq<char>, head: Seq<u16>, tail: Seq<u16>)
    requires
        no_gap(front),
        front.len() > 0 ==> front.last() != ':',
        plain_groups(front) == Some(head),
        closing_groups(back) == Some(tail),
        head.len() + tail.len() <= 7,
    ensures
        v6_groups(front + gap() + back) == Some(
            head + zero_groups((8 - head.len() - tail.len()) as nat) + tail,
        ),
{
    let s = front + gap() + back;
    lemma_gap_found(front, back);
    assert(s.take(front.len() as int) =~= front);
    assert(s.skip(front.len() as int + 2) =~= back);
}

/// The text of a 128-bit address reads back as that address.
pub proof fn law_v6_round_trip(address: u128)
    ensures
        v6_value(v6_text(address)) == Some(address),
{
    let groups = v6_parts(address);
    let s = v6_text(address);
    lemma_v6_parts(address);
    if is_mapped(groups) {
        lemma_mapped_round_trip(address);
    } else {
        let run = lemma_some_gap(groups, 8);
        assert(longest_run(groups, run.0, run.1));
        lemma_widest_gap(groups, run.0, run.1);
        let (start, len) = run;
        if len > 1 {
            let head = groups.take(start);
            let tail = groups.skip(start + len);
            lemma_group_list(head);
            lemma_group_list(tail);
            let front = group_list(head);
            let back = group_list(tail);
            lemma_gap_reading(front, back, head, tail);
            assert(head + zero_groups((8 - head.len() - tail.len()) as nat) + tail =~= groups);
        } else {
            lemma_group_list(groups);
            lemma_no_gap(s);
        }
    }
}

/// The groups after the zeros of an address that stands for the 32-bit one `low`.
spec fn mapped_tail(low: u32) -> Seq<u16> {
    seq![0xffffu16, (low / 0x10000) as u16, (low % 0x10000) as u16]
}

/// The group with all its bits set, in base sixteen.
proof fn lemma_all_ones()
    ensures
        hex(0xffff) == seq!['f', 'f', 'f', 'f'],
        group(seq!['f', 'f', 'f', 'f']) == Some(0xffffu16),
        is_field(seq!['f', 'f', 'f', 'f']),
{
    assert(hex(0xf) =~= seq!['f']);
    assert(hex(0xff) =~= seq!['f', 'f']);
    assert(hex(0xfff) =~= seq!['f', 'f', 'f']);
    assert(hex(0xffff) =~= seq!['f', 'f', 'f', 'f']);
    lemma_group_text(0xffff);
}

/// Two fields and the colon between them.
proof fn lemma_two_fields(first: Seq<char>, second: Seq<char>)
    requires
        is_field(first),
        is_field(second),
    ensures
        split(first.push(':') + second, Separator::Is(':')) == seq![first, second],
{
    let fields = seq![first, second];
    assert(!fields[0].contains(':') && !fields[1].contains(':'));
    law_split_of_join(fields, ':');
    assert(fields.drop_last() =~= seq![first]);
    assert(join(seq![first], ':') == first);
}

/// What follows the double colon in the text of such an address reads back as
/// those groups.
proof fn lemma_mapped_closing(low: u32)
    ensures
        closing_groups(seq!['f', 'f', 'f', 'f'].push(':') + v4_text(low)) == Some(
            mapped_tail(low),
        ),
{
    let ones = seq!['f', 'f', 'f', 'f'];
    let fields = seq![ones, v4_text(low)];
    law_v4_round_trip(low);
    lemma_v4_field(low);
    lemma_all_ones();
    lemma_two_fields(ones, v4_text(low));
    assert(fields.last() == v4_text(low));
    assert(fields.drop_last() =~= seq![ones]);
    let front = seq![0xffffu16];
    assert(groups_of_fields(seq![ones]) == Some(front)) by {
        assert(seq![ones].drop_last() =~= Seq::<Seq<char>>::empty());
        assert(groups_of_fields(Seq::<Seq<char>>::empty()) == Some(Seq::<u16>::empty()));
        assert(Seq::<u16>::empty().push(0xffffu16) =~= front);
    }
    assert(front.push((low / 0x10000) as u16).push((low % 0x10000) as u16) =~= mapped_tail(low));
}

/// The low thirty-two bits of a number are its last two groups.
proof fn lemma_low_groups(value: nat)
    ensures
        (value % 0x1_0000_0000) / 0x10000 == (value / 0x10000) % 0x10000,
        (value % 0x1_0000_0000) % 0x10000 == value % 0x10000,
{
}

/// The last two groups of an address.
proof fn lemma_last_groups(value: nat)
    ensures
        groups_of(value, 8).len() == 8,
        groups_of(value, 8)[6] == ((value / 0x10000) % 0x10000) as u16,
        groups_of(value, 8)[7] == (value % 0x10000) as u16,
{
    let next = value / 0x10000;
    lemma_groups_len(value, 8);
    lemma_groups_len(next, 7);
    lemma_groups_len(next / 0x10000, 6);
    assert(groups_of(value, 8) == groups_of(next, 7).push((value % 0x10000) as u16));
    assert(groups_of(next, 7) == groups_of(next / 0x10000, 6).push((next % 0x10000) as u16));
}

/// The groups of an address that stands for a 32-bit one: five zeros, then those
/// of the 32-bit one.
proof fn lemma_mapped_groups(address: u128)
    requires
        is_mapped(v6_parts(address)),
    ensures
        v6_parts(address) == zero_groups(5) + mapped_tail((address % 0x1_0000_0000) as u32),
{
    let groups = v6_parts(address);
    lemma_last_groups(address as nat);
    lemma_low_groups(address as nat);
    assert(groups[0] == 0 && groups[1] == 0 && groups[2] == 0 && groups[3] == 0 && groups[4] == 0);
    assert(groups =~= zero_groups(5) + mapped_tail((address % 0x1_0000_0000) as u32));
}

/// The text of an address that stands for a 32-bit one reads back as that
/// address.
proof fn lemma_mapped_round_trip(address: u128)
    requires
        is_mapped(v6_parts(address)),
    ensures
        v6_value(v6_text(address)) == Some(address),
{
    let low = (address % 0x1_0000_0000) as u32;
    let s = v6_text(address);
    let empty = Seq::<char>::empty();
    let back = seq!['f', 'f', 'f', 'f'].push(':') + v4_text(low);
    let head = Seq::<u16>::empty();
    lemma_v6_parts(address);
    lemma_mapped_closing(low);
    lemma_mapped_groups(address);
    assert(s == mapped_start() + v4_text(low));
    assert(s =~= empty + gap() + back);
    lemma_gap_reading(empty, back, head, mapped_tail(low));
    assert(head + zero_groups(5) + mapped_tail(low) =~= v6_parts(address));
}

/// Four parts without a colon, joined by dots, make a text without a colon.
proof fn lemma_four_parts(parts: Seq<Seq<char>>)
    requires
        parts.len() == 4,
        forall|i: int| 0 <= i < 4 ==> !(#[trigger] parts[i]).contains(':'),
    ensures
        join(parts, '.').len() > 0,
        !join(parts, '.').contains(':'),
{
    let s = join(parts, '.');
    assert(s =~= parts[0].push('.') + parts[1].push('.') + parts[2].push('.') + parts[3]) by {
        assert(parts.drop_last() =~= seq![parts[0], parts[1], parts[2]]);
        assert(parts.drop_last().drop_last() =~= seq![parts[0], parts[1]]);
        assert(parts.drop_last().drop_last().drop_last() =~= seq![parts[0]]);
        reveal_with_fuel(join, 5);
    }
    let (a, b, c) = (parts[0].len() as int, parts[1].len() as int, parts[2].len() as int);
    assert forall|i: int| 0 <= i < s.len() implies s[i] != ':' by {
        if s[i] == ':' {
            if i < a {
                assert(parts[0][i] == ':');
            } else if a < i < a + 1 + b {
                assert(parts[1][i - a - 1] == ':');
            } else if a + 1 + b < i < a + b + c + 2 {
                assert(parts[2][i - a - b - 2] == ':');
            } else if i > a + b + c + 2 {
                assert(parts[3][i - a - b - c - 3] == ':');
            }
        }
    }
}

/// The text of a 32-bit address is some text without a colon.
proof fn lemma_v4_field(address: u32)
    ensures
        is_field(v4_text(address)),
{
    lemma_octet_text((address / 0x1000000) as nat);
    lemma_octet_text((address / 0x10000 % 0x100) as nat);
    lemma_octet_text((address / 0x100 % 0x100) as nat);
    lemma_octet_text((address % 0x100) as nat);
    lemma_four_parts(v4_octets(address));
}

/// A text with a colon is no 32-bit address.
proof fn lemma_colon_not_v4(s: Seq<char>)
    requires
        s.contains(':'),
    ensures
        v4_value(s) is None,
{
    let parts = split(s, Separator::Is('.'));
    if v4_value(s) is Some {
        law_join_of_split(s, '.');
        assert forall|k: int| 0 <= k < 4 implies !(#[trigger] parts[k]).contains(':') by {
            if parts[k].contains(':') {
                let i = choose|i: int| 0 <= i < parts[k].len() && parts[k][i] == ':';
                lemma_no_digit(parts[k], i, 255);
                assert(octet(parts[k]) is None);
            }
        }
        lemma_four_parts(parts);
    }
}

/// The text of a 128-bit address holds a colon.
proof fn lemma_v6_colon(address: u128)
    ensures
        v6_text(address).contains(':'),
{
    let groups = v6_parts(address);
    let s = v6_text(address);
    lemma_v6_parts(address);
    if is_mapped(groups) {
        assert(s[0] == ':');
    } else {
        let run = lemma_some_gap(groups, 8);
        assert(longest_run(groups, run.0, run.1));
        lemma_widest_gap(groups, run.0, run.1);
        if run.1 > 1 {
            let front = group_list(groups.take(run.0));
            assert(s[front.len() as int] == ':');
        } else {
            let fields = groups.map_values(|value: u16| hex(value as nat));
            let front = join(fields.drop_last(), ':');
            assert(s == front.push(':') + fields.last());
            assert(s[front.len() as int] == ':');
        }
    }
}

/// The text of an address of either kind reads back as that address.
pub proof fn law_ip_round_trip(ip: IpAddr)
    ensures
        ip_value(ip_text(ip)) == Some(ip),
{
    match ip {
        IpAddr::V4(address) => {
            law_v4_round_trip(address);
        },
        IpAddr::V6(address) => {
            law_v6_round_trip(address);
            lemma_v6_colon(address);
            lemma_colon_not_v4(v6_text(address));
        },
    }
}

/// The text of an address.
pub open spec fn ip_text(ip: IpAddr) -> Seq<char> {
    match ip {
        IpAddr::V4(address) => v4_text(address),
        IpAddr::V6(address) => v6_text(address),
    }
}

/// The address that a text writes, of either kind.
pub open spec fn ip_value(s: Seq<char>) -> Option<IpAddr> {
    match v4_value(s) {
        Some(address) => Some(IpAddr::V4(address)),
        None => match v6_value(s) {
            Some(address) => Some(IpAddr::V6(address)),
            None => None,
        },
    }
}

impl IpAddr {
    /// The text of the address.
    pub fn to_text(&self) -> (text: String)
        ensures
            text@ == ip_text(*self),
    {
        let chars: Vec<char> = match self {
            IpAddr::V4(address) => v4_chars(*address),
            IpAddr::V6(address) => v6_chars(*address),
        };
        to_text(&chars)
    }
}

/// Reads an address of either kind.
pub fn parse_ip(text: &str) -> (result: Option<IpAddr>)
    ensures
        result == ip_value(text@),
{
    let chars: Vec<char> = to_chars(text);
    match parse_v4(&chars) {
        Some(address) => Some(IpAddr::V4(address)),
        None => match parse_v6(&chars) {
            Some(address) => Some(IpAddr::V6(address)),
            None => None,
        },
    }
}

/// Whether `c` can stand in the text of an address.
spec fn address_char(c: char) -> bool {
    hex_digit_value(c) is Some || c == '.' || c == ':'
}

/// Parts that hold only characters of addresses, joined by a dot or a colon, hold
/// only such characters.
proof fn lemma_join_address_chars(parts: Seq<Seq<char>>, sep: char)
    requires
        sep == '.' || sep == ':',
        forall|i: int, k: int|
            0 <= i < parts.len() && 0 <= k < parts[i].len() ==> address_char(
                #[trigger] parts[i][k],
            ),
    ensures
        forall|i: int| 0 <= i < join(parts, sep).len() ==> address_char(
            #[trigger] join(parts, sep)[i],
        ),
    decreases parts.len(),
{
    if parts.len() > 0 {
        let front = parts.drop_last();
        assert forall|i: int, k: int|
            0 <= i < front.len() && 0 <= k < front[i].len() implies address_char(
            #[trigger] front[i][k],
        ) by {
            assert(front[i][k] == parts[i][k]);
        }
        lemma_join_address_chars(front, sep);
        let s = join(parts, sep);
        assert forall|i: int| 0 <= i < s.len() implies address_char(#[trigger] s[i]) by {
            if parts.len() == 1 {
                assert(s[i] == parts[0][i]);
            } else {
                let before = join(front, sep);
                if i < before.len() {
                    assert(s[i] == before[i]);
                } else if i > before.len() {
                    let last = parts.len() - 1;
                    assert(s[i] == parts[last][i - before.len() - 1]);
                }
            }
        }
    }
}

/// The text of a 32-bit address holds only characters of addresses.
proof fn lemma_v4_address_chars(address: u32)
    ensures
        forall|i: int| 0 <= i < v4_text(address).len() ==> address_char(
            #[trigger] v4_text(address)[i],
        ),
{
    let parts = v4_octets(address);
    lemma_decimal_digits((address / 0x1000000) as nat);
    lemma_decimal_digits((address / 0x10000 % 0x100) as nat);
    lemma_decimal_digits((address / 0x100 % 0x100) as nat);
    lemma_decimal_digits((address % 0x100) as nat);
    assert forall|i: int, k: int|
        0 <= i < parts.len() && 0 <= k < parts[i].len() implies address_char(
        #[trigger] parts[i][k],
    ) by {
        assert(is_digit(parts[i][k]));
    }
    lemma_join_address_chars(parts, '.');
}

/// A list of groups holds only characters of addresses.
proof fn lemma_list_address_chars(groups: Seq<u16>)
    ensures
        forall|i: int| 0 <= i < group_list(groups).len() ==> address_char(
            #[trigger] group_list(groups)[i],
        ),
{
    let fields = groups.map_values(|value: u16| hex(value as nat));
    assert forall|i: int, k: int|
        0 <= i < fields.len() && 0 <= k < fields[i].len() implies address_char(
        #[trigger] fields[i][k],
    ) by {
        lemma_hex_round_trip(groups[i] as nat);
        assert(hex_digit_value(hex(groups[i] as nat)[k]) is Some);
    }
    lemma_join_address_chars(fields, ':');
}

/// The text of an address holds no slash.
pub proof fn lemma_no_slash(low: u32, high: u128)
    ensures
        !v4_text(low).contains('/'),
        !v6_text(high).contains('/'),
{
    assert(!address_char('/'));
    lemma_v4_address_chars(low);
    let groups = v6_parts(high);
    let s = v6_text(high);
    lemma_v6_parts(high);
    if is_mapped(groups) {
        let end = v4_text((high % 0x1_0000_0000) as u32);
        lemma_v4_address_chars((high % 0x1_0000_0000) as u32);
        assert forall|i: int| 0 <= i < s.len() implies s[i] != '/' by {
            if i >= 7 {
                assert(address_char(end[i - 7]));
            }
        }
    } else {
        let run = lemma_some_gap(groups, 8);
        assert(longest_run(groups, run.0, run.1));
        lemma_widest_gap(groups, run.0, run.1);
        if run.1 > 1 {
            let head = groups.take(run.0);
            let tail = groups.skip(run.0 + run.1);
            lemma_list_address_chars(head);
            lemma_list_address_chars(tail);
            let n = group_list(head).len() as int;
            assert forall|i: int| 0 <= i < s.len() implies s[i] != '/' by {
                if i < n {
                    assert(address_char(group_list(head)[i]));
                } else if i >= n + 2 {
                    assert(address_char(group_list(tail)[i - n - 2]));
                }
            }
        } else {
            lemma_list_address_chars(groups);
        }
    }
}

/// A text that writes a byte is the byte in base ten.
proof fn lemma_octet_exact(s: Seq<char>)
    ensures
        octet(s) matches Some(value) ==> value < 256 && s == decimal(value),
{
    if octet(s) is Some {
        law_decimal_exact(s, 255);
        assert(scan_decimal(s, 255) matches Ok(value) ==> value <= 255);
    }
}

/// The bytes of a number that was made of four bytes.
proof fn lemma_bytes(a: nat, b: nat, c: nat, d: nat)
    requires
        a < 256,
        b < 256,
        c < 256,
        d < 256,
    ensures
        four_bytes(a, b, c, d) == a * 0x1000000 + b * 0x10000 + c * 0x100 + d,
        four_bytes(a, b, c, d) <= u32::MAX,
        four_bytes(a, b, c, d) / 0x1000000 == a,
        four_bytes(a, b, c, d) / 0x10000 % 0x100 == b,
        four_bytes(a, b, c, d) / 0x100 % 0x100 == c,
        four_bytes(a, b, c, d) % 0x100 == d,
{
    let x = four_bytes(a, b, c, d);
    assert(x / 0x100 == a * 0x10000 + b * 0x100 + c);
    assert(x / 0x10000 == a * 0x100 + b);
}

/// A text is read as a 32-bit address if and only if it is that address's text.
pub proof fn law_v4_exact(s: Seq<char>, address: u32)
    ensures
        v4_value(s) == Some(address) <==> s == v4_text(address),
{
    law_v4_round_trip(address);
    if v4_value(s) == Some(address) {
        let parts = split(s, Separator::Is('.'));
        lemma_octet_exact(parts[0]);
        lemma_octet_exact(parts[1]);
        lemma_octet_exact(parts[2]);
        lemma_octet_exact(parts[3]);
        let (a, b) = (octet(parts[0])->Some_0, octet(parts[1])->Some_0);
        let (c, d) = (octet(parts[2])->Some_0, octet(parts[3])->Some_0);
        lemma_bytes(a, b, c, d);
        law_join_of_split(s, '.');
        assert(parts =~= seq![decimal(a), decimal(b), decimal(c), decimal(d)]);
        assert(v4_octets(address) == seq![decimal(a), decimal(b), decimal(c), decimal(d)]);
    }
}

/// Four parts with dots between them.
proof fn lemma_join_four(a: Seq<char>, b: Seq<char>, c: Seq<char>, d: Seq<char>)
    ensures
        join(seq![a, b, c, d], '.') == a.push('.') + b.push('.') + c.push('.') + d,
{
    let parts = seq![a, b, c, d];
    assert(parts.drop_last() =~= seq![a, b, c]);
    assert(seq![a, b, c].drop_last() =~= seq![a, b]);
    assert(seq![a, b].drop_last() =~= seq![a]);
    assert(join(seq![a], '.') == a);
    assert(join(seq![a, b], '.') == a.push('.') + b);
    assert(join(seq![a, b, c], '.') == (a.push('.') + b).push('.') + c);
    assert(join(parts, '.') =~= a.push('.') + b.push('.') + c.push('.') + d);
}

/// The text of a 32-bit address is its four bytes in base ten, the highest first,
/// with dots between them.
pub proof fn law_v4_text_of_bytes(a: nat, b: nat, c: nat, d: nat, address: u32)
    requires
        a < 256,
        b < 256,
        c < 256,
        d < 256,
        address == a * 0x1000000 + b * 0x10000 + c * 0x100 + d,
    ensures
        v4_text(address) == decimal(a).push('.') + decimal(b).push('.') + decimal(c).push('.')
            + decimal(d),
{
    lemma_bytes(a, b, c, d);
    lemma_join_four(decimal(a), decimal(b), decimal(c), decimal(d));
    assert(v4_octets(address) == seq![decimal(a), decimal(b), decimal(c), decimal(d)]);
}

/// A text that writes a number in base sixteen holds no dot and no colon.
proof fn lemma_hex_chars(s: Seq<char>, i: int)
    requires
        hex_value(s) is Some,
        0 <= i < s.len(),
    ensures
        s[i] != '.',
        s[i] != ':',
    decreases s.len(),
{
    if i < s.len() - 1 {
        lemma_hex_chars(s.drop_last(), i);
    }
}

/// A text that writes a group is a field, and no 32-bit address.
proof fn lemma_group_field(s: Seq<char>)
    requires
        group(s) is Some,
    ensures
        is_field(s),
        v4_value(s) is None,
{
    assert forall|i: int| 0 <= i < s.len() implies #[trigger] s[i] != ':' && s[i] != '.' by {
        lemma_hex_chars(s, i);
    }
    let dot = Separator::Is('.');
    lemma_split_extend(Seq::empty(), s, dot);
    assert(Seq::<char>::empty() + s =~= s);
    assert(split(Seq::empty(), dot) =~= seq![Seq::<char>::empty()]);
    assert(split(s, dot).len() == 1);
}

/// Whether every field writes the group at its place.
pub open spec fn fields_write(fields: Seq<Seq<char>>, groups: Seq<u16>) -> bool {
    &&& fields.len() == groups.len()
    &&& forall|i: int| 0 <= i < fields.len() ==> group(#[trigger] fields[i]) == Some(groups[i])
}

/// Fields are read one by one.
proof fn lemma_fields_read(fields: Seq<Seq<char>>, groups: Seq<u16>)
    requires
        fields_write(fields, groups),
    ensures
        groups_of_fields(fields) == Some(groups),
    decreases fields.len(),
{
    if fields.len() == 0 {
        assert(groups =~= Seq::empty());
    } else {
        let (front, less) = (fields.drop_last(), groups.drop_last());
        assert forall|i: int| 0 <= i < front.len() implies group(#[trigger] front[i]) == Some(
            less[i],
        ) by {
            assert(front[i] == fields[i]);
        }
        lemma_fields_read(front, less);
        assert(group(fields[fields.len() - 1]) == Some(groups.last()));
        assert(less.push(groups.last()) =~= groups);
    }
}

/// A list of fields is read at the start of an address and at its end.
proof fn lemma_list_read(fields: Seq<Seq<char>>, groups: Seq<u16>)
    requires
        fields_write(fields, groups),
    ensures
        plain_groups(join(fields, ':')) == Some(groups),
        closing_groups(join(fields, ':')) == Some(groups),
        no_gap(join(fields, ':')),
        join(fields, ':').len() > 0 ==> join(fields, ':').last() != ':',
{
    if fields.len() == 0 {
        assert(groups =~= Seq::empty());
    } else {
        assert forall|i: int| 0 <= i < fields.len() implies is_field(#[trigger] fields[i])
            && !fields[i].contains(':') && v4_value(fields[i]) is None by {
            assert(group(fields[i]) is Some);
            lemma_group_field(fields[i]);
        }
        lemma_field_list(fields);
        law_split_of_join(fields, ':');
        lemma_fields_read(fields, groups);
        assert(v4_value(fields[fields.len() - 1]) is None);
    }
}

/// Eight groups with colons between them are read as the number that they make, the
/// first highest.
pub proof fn law_v6_of_eight_groups(fields: Seq<Seq<char>>, groups: Seq<u16>)
    requires
        fields.len() == 8,
        fields_write(fields, groups),
    ensures
        v6_value(join(fields, ':')) is Some,
        v6_value(join(fields, ':'))->Some_0 as nat == groups[0] * 0x10000 * 0x10000 * 0x10000
            * 0x10000 * 0x10000 * 0x10000 * 0x10000 + groups[1] * 0x10000 * 0x10000 * 0x10000
            * 0x10000 * 0x10000 * 0x10000 + groups[2] * 0x10000 * 0x10000 * 0x10000 * 0x10000
            * 0x10000 + groups[3] * 0x10000 * 0x10000 * 0x10000 * 0x10000 + groups[4] * 0x10000
            * 0x10000 * 0x10000 + groups[5] * 0x10000 * 0x10000 + groups[6] * 0x10000 + groups[7],
{
    lemma_list_read(fields, groups);
    lemma_no_gap(join(fields, ':'));
    let g7 = groups.drop_last();
    let g6 = g7.drop_last();
    let g5 = g6.drop_last();
    let g4 = g5.drop_last();
    let g3 = g4.drop_last();
    let g2 = g3.drop_last();
    let g1 = g2.drop_last();
    assert(groups_value(g1.drop_last()) == 0);
    assert(groups_value(g1) == groups[0]);
    assert(groups_value(g2) == groups_value(g1) * 0x10000 + groups[1]);
    assert(groups_value(g3) == groups_value(g2) * 0x10000 + groups[2]);
    assert(groups_value(g4) == groups_value(g3) * 0x10000 + groups[3]);
    assert(groups_value(g5) == groups_value(g4) * 0x10000 + groups[4]);
    assert(groups_value(g6) == groups_value(g5) * 0x10000 + groups[5]);
    assert(groups_value(g7) == groups_value(g6) * 0x10000 + groups[6]);
    assert(groups_value(groups) == groups_value(g7) * 0x10000 + groups[7]);
}

/// A double colon stands for as many zero groups as there are too few: the text is
/// read as the one with these groups written out.
pub proof fn law_v6_gap_written_out(
    head: Seq<Seq<char>>,
    tail: Seq<Seq<char>>,
    before: Seq<u16>,
    after: Seq<u16>,
)
    requires
        fields_write(head, before),
        fields_write(tail, after),
        head.len() + tail.len() <= 7,
    ensures
        v6_value(join(head, ':') + seq![':', ':'] + join(tail, ':')) == v6_value(
            join(head + Seq::new((8 - head.len() - tail.len()) as nat, |i: int| seq!['0']) + tail, ':'),
        ),
{
    let n = (8 - head.len() - tail.len()) as nat;
    let fields = head + Seq::new(n, |i: int| seq!['0']) + tail;
    let groups = before + zero_groups(n) + after;
    lemma_list_read(head, before);
    lemma_list_read(tail, after);
    lemma_gap_reading(join(head, ':'), join(tail, ':'), before, after);
    assert(group(seq!['0']) == Some(0u16)) by {
        assert(seq!['0'].drop_last() =~= Seq::<char>::empty());
        assert(hex_value(Seq::<char>::empty()) == Some(0nat));
    }
    assert forall|i: int| 0 <= i < fields.len() implies group(#[trigger] fields[i]) == Some(
        groups[i],
    ) by {
        if i < head.len() {
            assert(fields[i] == head[i]);
        } else if i >= head.len() + n {
            assert(fields[i] == tail[i - head.len() - n]);
        }
    }
    lemma_list_read(fields, groups);
    lemma_no_gap(join(fields, ':'));
}

/// A 32-bit address behind six groups stands for the last two: the text is read as
/// the one with these groups written out.
pub proof fn law_v6_ending_in_v4(fields: Seq<Seq<char>>, groups: Seq<u16>, low: u32)
    requires
        fields.len() == 6,
        fields_write(fields, groups),
    ensures
        v6_value(join(fields.push(v4_text(low)), ':')) == v6_value(
            join(
                fields.push(hex((low / 0x10000) as nat)).push(hex((low % 0x10000) as nat)),
                ':',
            ),
        ),
{
    let short = fields.push(v4_text(low));
    let (high_group, low_group) = ((low / 0x10000) as u16, (low % 0x10000) as u16);
    let long = fields.push(hex((low / 0x10000) as nat)).push(hex((low % 0x10000) as nat));
    let all = groups.push(high_group).push(low_group);
    lemma_v4_field(low);
    law_v4_round_trip(low);
    lemma_group_text(high_group);
    lemma_group_text(low_group);
    assert forall|i: int| 0 <= i < short.len() implies is_field(#[trigger] short[i])
        && !short[i].contains(':') by {
        if i < 6 {
            assert(group(fields[i]) is Some);
            lemma_group_field(fields[i]);
        }
    }
    lemma_field_list(short);
    law_split_of_join(short, ':');
    lemma_no_gap(join(short, ':'));
    lemma_fields_read(fields, groups);
    assert(short.drop_last() =~= fields);
    assert(short.last() == v4_text(low));
    assert forall|i: int| 0 <= i < long.len() implies group(#[trigger] long[i]) == Some(
        all[i],
    ) by {
        if i < 6 {
            assert(long[i] == fields[i]);
        }
    }
    lemma_list_read(long, all);
    lemma_no_gap(join(long, ':'));
}

/// Groups that make the same number are the same.
proof fn lemma_groups_unique(a: Seq<u16>, b: Seq<u16>)
    requires
        a.len() == b.len(),
        groups_value(a) == groups_value(b),
    ensures
        a == b,
    decreases a.len(),
{
    if a.len() == 0 {
        assert(a =~= b);
    } else {
        let (x, y) = (a.drop_last(), b.drop_last());
        assert(groups_value(a) % 0x10000 == a.last() as nat);
        assert(groups_value(b) % 0x10000 == b.last() as nat);
        lemma_groups_unique(x, y);
        assert(a =~= x.push(a.last()));
        assert(b =~= y.push(b.last()));
    }
}

/// The text of a 128-bit address is its eight groups in base sixteen with colons
/// between them. A double colon takes the place of the first of the longest runs of
/// two or more zero groups. Five zero groups and one of ones are followed by the
/// text of a 32-bit address.
pub proof fn law_v6_text_shape(address: u128, groups: Seq<u16>, start: int, len: int)
    requires
        groups.len() == 8,
        address as nat == groups_value(groups),
        zero_run(groups, start, len),
        forall|s: int, l: int| #[trigger]
            zero_run(groups, s, l) ==> l < len || (l == len && start <= s),
    ensures
        ({
            let fields = groups.map_values(|value: u16| hex(value as nat));
            v6_text(address) == if zero_run(groups, 0, 5) && groups[5] == 0xffff {
                seq![':', ':', 'f', 'f', 'f', 'f', ':'] + v4_text((address % 0x1_0000_0000) as u32)
            } else if len >= 2 {
                join(fields.take(start), ':') + seq![':', ':'] + join(fields.skip(start + len), ':')
            } else {
                join(fields, ':')
            }
        }),
{
    let fields = groups.map_values(|value: u16| hex(value as nat));
    lemma_v6_parts(address);
    lemma_groups_unique(v6_parts(address), groups);
    assert(longest_run(groups, start, len));
    lemma_widest_gap(groups, start, len);
    assert(groups.take(start).map_values(|value: u16| hex(value as nat)) =~= fields.take(start));
    assert(groups.skip(start + len).map_values(|value: u16| hex(value as nat)) =~= fields.skip(
        start + len,
    ));
}

} // verus!
