//! The proxies that passed, grouped by country.

use vstd::prelude::*;

use crate::text::to_chars;

verus! {

/// A proxy that passed.
#[derive(Debug)]
pub struct ProxyInfo {
    /// The address as text.
    pub ip: String,
    /// The port.
    pub port: u16,
    /// The network's owner.
    pub isp: String,
    /// The country's code.
    pub country_code: String,
    /// The city.
    pub city: String,
    /// The region.
    pub region: String,
}

/// The content of what is known of a proxy.
pub ghost struct ProxyEntry {
    /// The address as text.
    pub ip: Seq<char>,
    /// The port.
    pub port: u16,
    /// The network's owner.
    pub isp: Seq<char>,
    /// The country's code.
    pub country_code: Seq<char>,
    /// The city.
    pub city: Seq<char>,
    /// The region.
    pub region: Seq<char>,
}

impl View for ProxyInfo {
    type V = ProxyEntry;

    open spec fn view(&self) -> ProxyEntry {
        ProxyEntry {
            ip: self.ip@,
            port: self.port,
            isp: self.isp@,
            country_code: self.country_code@,
            city: self.city@,
            region: self.region@,
        }
    }
}

/// The contents of a list of proxies.
pub open spec fn entries(proxies: Seq<ProxyInfo>) -> Seq<ProxyEntry> {
    proxies.map_values(|info: ProxyInfo| info@)
}

/// The proxies of one country.
#[derive(Debug)]
pub struct CountryGroup {
    /// The country's code.
    pub code: String,
    /// Its proxies.
    pub proxies: Vec<ProxyInfo>,
}

/// The content of the proxies of one country.
pub ghost struct Group {
    /// The country's code.
    pub code: Seq<char>,
    /// Its proxies.
    pub proxies: Seq<ProxyEntry>,
}

impl View for CountryGroup {
    type V = Group;

    open spec fn view(&self) -> Group {
        Group { code: self.code@, proxies: entries(self.proxies@) }
    }
}

/// Whether `a` stands before `b` in the order of strings: at the first character
/// in which they differ it has the lower one, or it is the start of `b`.
pub open spec fn precedes(a: Seq<char>, b: Seq<char>) -> bool
    decreases a.len(),
{
    if b.len() == 0 {
        false
    } else if a.len() == 0 {
        true
    } else if a[0] == b[0] {
        precedes(a.skip(1), b.skip(1))
    } else {
        a[0] < b[0]
    }
}

/// The order of strings is strict and total, and it can be chained.
pub proof fn law_string_order(a: Seq<char>, b: Seq<char>, c: Seq<char>)
    ensures
        !precedes(a, a),
        a == b || precedes(a, b) || precedes(b, a),
        precedes(a, b) ==> !precedes(b, a),
        precedes(a, b) && precedes(b, c) ==> precedes(a, c),
    decreases a.len(),
{
    if a.len() > 0 {
        law_string_order(a.skip(1), a.skip(1), a.skip(1));
    }
    if a.len() > 0 && b.len() > 0 {
        let rest = if c.len() > 0 {
            c.skip(1)
        } else {
            c
        };
        law_string_order(a.skip(1), b.skip(1), rest);
        if a[0] == b[0] && a.skip(1) == b.skip(1) {
            assert(a =~= seq![a[0]] + a.skip(1));
            assert(b =~= seq![b[0]] + b.skip(1));
        }
    } else if a.len() == 0 && b.len() == 0 {
        assert(a =~= b);
    }
}

/// How two strings are ordered.
#[derive(Clone, Copy, Debug, PartialEq, Eq, Structural)]
pub enum Order {
    /// The first stands before the second.
    Before,
    /// They are the same.
    Same,
    /// The first stands after the second.
    After,
}

/// Puts two strings in order.
pub fn string_order(a: &str, b: &str) -> (order: Order)
    ensures
        match order {
            Order::Before => precedes(a@, b@),
            Order::Same => a@ == b@,
            Order::After => precedes(b@, a@),
        },
{
    let first: Vec<char> = to_chars(a);
    let second: Vec<char> = to_chars(b);
    let mut i: usize = 0;
    assert(a@.skip(0) =~= a@);
    assert(b@.skip(0) =~= b@);
    while i < first.len() && i < second.len()
        invariant
            first@ == a@,
            second@ == b@,
            i <= first@.len(),
            i <= second@.len(),
            a@.take(i as int) =~= b@.take(i as int),
            precedes(a@, b@) == precedes(a@.skip(i as int), b@.skip(i as int)),
            precedes(b@, a@) == precedes(b@.skip(i as int), a@.skip(i as int)),
        decreases first@.len() - i,
    {
        let (c, d) = (first[i], second[i]);
        assert(a@.skip(i as int)[0] == c && b@.skip(i as int)[0] == d);
        if c < d {
            return Order::Before;
        }
        if d < c {
            return Order::After;
        }
        assert(a@.skip(i as int).skip(1) =~= a@.skip(i + 1));
        assert(b@.skip(i as int).skip(1) =~= b@.skip(i + 1));
        assert(a@.take(i + 1) =~= a@.take(i as int).push(c));
        assert(b@.take(i + 1) =~= b@.take(i as int).push(d));
        i = i + 1;
    }
    if first.len() < second.len() {
        Order::Before
    } else if second.len() < first.len() {
        Order::After
    } else {
        assert(a@.take(i as int) =~= a@);
        assert(b@.take(i as int) =~= b@);
        Order::Same
    }
}

/// The proxies of the country with a code; none if the table has no such group.
pub open spec fn of_country(table: Seq<Group>, code: Seq<char>) -> Seq<ProxyEntry>
    decreases table.len(),
{
    if table.len() == 0 {
        Seq::empty()
    } else if table.last().code == code {
        table.last().proxies
    } else {
        of_country(table.drop_last(), code)
    }
}

/// How many proxies the table holds.
pub open spec fn total(table: Seq<Group>) -> nat
    decreases table.len(),
{
    if table.len() == 0 {
        0
    } else {
        total(table.drop_last()) + table.last().proxies.len()
    }
}

/// The groups stand in the order of their codes, each code once; each group has
/// proxies, all with its code.
pub open spec fn table_wf(table: Seq<Group>) -> bool {
    &&& forall|i: int, j: int|
        0 <= i < j < table.len() ==> precedes(#[trigger] table[i].code, #[trigger] table[j].code)
    &&& forall|i: int| 0 <= i < table.len() ==> (#[trigger] table[i]).proxies.len() > 0
    &&& forall|i: int, k: int|
        0 <= i < table.len() && 0 <= k < table[i].proxies.len() ==> (
        #[trigger] table[i].proxies[k]).country_code == table[i].code
}

/// The proxies that passed, grouped by country, in the order of the codes.
pub struct ProxyTable {
    groups: Vec<CountryGroup>,
}

impl View for ProxyTable {
    type V = Seq<Group>;

    closed spec fn view(&self) -> Seq<Group> {
        self.groups@.map_values(|group: CountryGroup| group@)
    }
}

/// Where the codes are in order, a group is found by its code.
proof fn lemma_of_country_at(table: Seq<Group>, i: int)
    requires
        table_wf(table),
        0 <= i < table.len(),
    ensures
        of_country(table, table[i].code) == table[i].proxies,
    decreases table.len(),
{
    let last = table.len() - 1;
    if i < last {
        let front = table.drop_last();
        assert(precedes(table[i].code, table[last].code));
        law_string_order(table[i].code, table[last].code, table[i].code);
        lemma_wf_front(table);
        assert(front[i] == table[i]);
        lemma_of_country_at(front, i);
    }
}

/// Without its last group a table in order is in order.
proof fn lemma_wf_front(table: Seq<Group>)
    requires
        table_wf(table),
        table.len() > 0,
    ensures
        table_wf(table.drop_last()),
{
    let front = table.drop_last();
    assert forall|i: int, j: int| 0 <= i < j < front.len() implies precedes(
        #[trigger] front[i].code,
        #[trigger] front[j].code,
    ) by {
        assert(front[i] == table[i] && front[j] == table[j]);
    }
    assert forall|i: int| 0 <= i < front.len() implies (#[trigger] front[i]).proxies.len() > 0 by {
        assert(front[i] == table[i]);
    }
    assert forall|i: int, k: int|
        0 <= i < front.len() && 0 <= k < front[i].proxies.len() implies (
    #[trigger] front[i].proxies[k]).country_code == front[i].code by {
        assert(front[i].proxies[k] == table[i].proxies[k]);
    }
}

/// A code that no group has has no proxies.
proof fn lemma_of_country_none(table: Seq<Group>, code: Seq<char>)
    requires
        forall|i: int| 0 <= i < table.len() ==> (#[trigger] table[i]).code != code,
    ensures
        of_country(table, code) == Seq::<ProxyEntry>::empty(),
    decreases table.len(),
{
    if table.len() > 0 {
        assert(table[table.len() - 1].code != code);
        let front = table.drop_last();
        assert forall|i: int| 0 <= i < front.len() implies (#[trigger] front[i]).code != code by {
            assert(front[i] == table[i]);
        }
        lemma_of_country_none(front, code);
    }
}

/// Putting a group into a table adds its proxies to the total.
proof fn lemma_total_insert(table: Seq<Group>, i: int, group: Group)
    requires
        0 <= i <= table.len(),
    ensures
        total(table.insert(i, group)) == total(table) + group.proxies.len(),
    decreases table.len(),
{
    let grown = table.insert(i, group);
    if i == table.len() {
        assert(grown.drop_last() =~= table);
    } else {
        lemma_total_insert(table.drop_last(), i, group);
        assert(grown.drop_last() =~= table.drop_last().insert(i, group));
        assert(grown.last() == table.last());
    }
}

/// Changing a group changes the total by the difference.
proof fn lemma_total_update(table: Seq<Group>, i: int, group: Group)
    requires
        0 <= i < table.len(),
    ensures
        total(table.update(i, group)) + table[i].proxies.len() == total(table)
            + group.proxies.len(),
    decreases table.len(),
{
    let changed = table.update(i, group);
    if i == table.len() - 1 {
        assert(changed.drop_last() =~= table.drop_last());
    } else {
        lemma_total_update(table.drop_last(), i, group);
        assert(changed.drop_last() =~= table.drop_last().update(i, group));
        assert(changed.last() == table.last());
    }
}

/// Whether `code` belongs at position `i` of the table: the codes before it come
/// first, those from there on do not.
spec fn belongs_at(table: Seq<Group>, code: Seq<char>, i: int) -> bool {
    &&& 0 <= i <= table.len()
    &&& forall|k: int| 0 <= k < i ==> precedes(#[trigger] table[k].code, code)
    &&& i < table.len() ==> !precedes(table[i].code, code)
}

/// What adding a proxy does to a table.
pub open spec fn grown_by(before: Seq<Group>, after: Seq<Group>, entry: ProxyEntry) -> bool {
    &&& forall|code: Seq<char>| #[trigger]
        of_country(after, code) == if code == entry.country_code {
            of_country(before, code).push(entry)
        } else {
            of_country(before, code)
        }
    &&& total(after) == total(before) + 1
}

/// A proxy of a country that has a group is added at the group's end.
proof fn lemma_add_to_group(table: Seq<Group>, entry: ProxyEntry, i: int)
    requires
        table_wf(table),
        0 <= i < table.len(),
        table[i].code == entry.country_code,
    ensures
        ({
            let group = Group { code: table[i].code, proxies: table[i].proxies.push(entry) };
            table_wf(table.update(i, group)) && grown_by(table, table.update(i, group), entry)
        }),
{
    let group = Group { code: table[i].code, proxies: table[i].proxies.push(entry) };
    let after = table.update(i, group);
    assert forall|j: int, k: int|
        0 <= j < after.len() && 0 <= k < after[j].proxies.len() implies (
    #[trigger] after[j].proxies[k]).country_code == after[j].code by {
        if j != i || k < table[i].proxies.len() {
            assert(after[j].proxies[k] == table[j].proxies[k]);
        }
    }
    assert(table_wf(after));
    assert forall|code: Seq<char>| #[trigger]
        of_country(after, code) == if code == entry.country_code {
            of_country(table, code).push(entry)
        } else {
            of_country(table, code)
        } by {
        lemma_same_codes(table, after, code);
        if code == entry.country_code {
            lemma_of_country_at(table, i);
            lemma_of_country_at(after, i);
        } else if exists|j: int| 0 <= j < table.len() && (#[trigger] table[j]).code == code {
            let j = choose|j: int| 0 <= j < table.len() && (#[trigger] table[j]).code == code;
            lemma_of_country_at(table, j);
            lemma_of_country_at(after, j);
        } else {
            lemma_of_country_none(table, code);
        }
    }
    lemma_total_update(table, i, group);
}

/// Tables with the same codes have no proxies for the same codes.
proof fn lemma_same_codes(table: Seq<Group>, other: Seq<Group>, code: Seq<char>)
    requires
        table.len() == other.len(),
        forall|i: int| 0 <= i < table.len() ==> (#[trigger] table[i]).code == other[i].code,
    ensures
        (forall|i: int| 0 <= i < table.len() ==> (#[trigger] table[i]).code != code)
            ==> of_country(other, code) == Seq::<ProxyEntry>::empty(),
{
    if forall|i: int| 0 <= i < table.len() ==> (#[trigger] table[i]).code != code {
        assert forall|i: int| 0 <= i < other.len() implies (#[trigger] other[i]).code != code by {
            assert(table[i].code == other[i].code);
        }
        lemma_of_country_none(other, code);
    }
}

/// A proxy of a country that has no group gets one, where its code belongs.
proof fn lemma_add_group(table: Seq<Group>, entry: ProxyEntry, i: int)
    requires
        table_wf(table),
        belongs_at(table, entry.country_code, i),
        i < table.len() ==> table[i].code != entry.country_code,
    ensures
        ({
            let group = Group { code: entry.country_code, proxies: seq![entry] };
            table_wf(table.insert(i, group)) && grown_by(table, table.insert(i, group), entry)
        }),
{
    let code = entry.country_code;
    let group = Group { code, proxies: seq![entry] };
    let after = table.insert(i, group);
    assert forall|k: int| i <= k < table.len() implies precedes(code, #[trigger] table[k].code) by {
        law_string_order(table[i].code, code, code);
        if k > i {
            assert(precedes(table[i].code, table[k].code));
            law_string_order(code, table[i].code, table[k].code);
        }
    }
    assert forall|j: int, k: int| 0 <= j < k < after.len() implies precedes(
        #[trigger] after[j].code,
        #[trigger] after[k].code,
    ) by {
        let (from, to) = (
            if j < i {
                j
            } else {
                j - 1
            },
            if k < i {
                k
            } else {
                k - 1
            },
        );
        if j != i {
            assert(after[j] == table[from]);
        }
        if k != i {
            assert(after[k] == table[to]);
        }
        if j != i && k != i {
            assert(precedes(table[from].code, table[to].code));
        }
    }
    assert forall|j: int| 0 <= j < after.len() implies (#[trigger] after[j]).proxies.len() > 0 by {
        if j < i {
            assert(after[j] == table[j]);
        } else if j > i {
            assert(after[j] == table[j - 1]);
        }
    }
    assert forall|j: int, k: int|
        0 <= j < after.len() && 0 <= k < after[j].proxies.len() implies (
    #[trigger] after[j].proxies[k]).country_code == after[j].code by {
        if j < i {
            assert(after[j] == table[j]);
            assert(after[j].proxies[k] == table[j].proxies[k]);
        } else if j > i {
            assert(after[j] == table[j - 1]);
            assert(after[j].proxies[k] == table[j - 1].proxies[k]);
        }
    }
    assert(table_wf(after));
    assert forall|j: int| 0 <= j < table.len() implies (#[trigger] table[j]).code != code by {
        law_string_order(code, code, code);
        if j < i {
            assert(precedes(table[j].code, code));
        } else {
            assert(precedes(code, table[j].code));
        }
    }
    assert forall|other: Seq<char>| #[trigger]
        of_country(after, other) == if other == code {
            of_country(table, other).push(entry)
        } else {
            of_country(table, other)
        } by {
        if other == code {
            lemma_of_country_none(table, code);
            lemma_of_country_at(after, i);
            assert(Seq::<ProxyEntry>::empty().push(entry) =~= seq![entry]);
        } else if exists|j: int| 0 <= j < table.len() && (#[trigger] table[j]).code == other {
            let j = choose|j: int| 0 <= j < table.len() && (#[trigger] table[j]).code == other;
            lemma_of_country_at(table, j);
            if j < i {
                assert(after[j] == table[j]);
                lemma_of_country_at(after, j);
            } else {
                assert(after[j + 1] == table[j]);
                lemma_of_country_at(after, j + 1);
            }
        } else {
            lemma_of_country_none(table, other);
            assert forall|j: int| 0 <= j < after.len() implies (#[trigger] after[j]).code
                != other by {
                if j < i {
                    assert(after[j] == table[j]);
                } else if j > i {
                    assert(after[j] == table[j - 1]);
                }
            }
            lemma_of_country_none(after, other);
        }
    }
    lemma_total_insert(table, i, group);
}

impl ProxyTable {
    /// The groups stand in the order of their codes, each code once; each group
    /// has proxies, all with its code.
    pub open spec fn wf(&self) -> bool {
        table_wf(self@)
    }

    /// An empty table.
    pub fn new() -> (table: ProxyTable)
        ensures
            table.wf(),
            table@ == Seq::<Group>::empty(),
    {
        let table: ProxyTable = ProxyTable { groups: Vec::new() };
        assert(table@ =~= Seq::<Group>::empty());
        table
    }

    /// Adds a proxy after the others of its country. The proxies of other
    /// countries stay as they are.
    pub fn add(&mut self, info: ProxyInfo)
        requires
            old(self).wf(),
        ensures
            final(self).wf(),
            grown_by(old(self)@, final(self)@, info@),
    {
        let ghost before = self@;
        let ghost entry = info@;
        let mut i: usize = 0;
        let mut same: bool = false;
        while i < self.groups.len()
            invariant_except_break
                !same,
            invariant
                self@ == before,
                table_wf(before),
                before.len() == self.groups@.len(),
                entry == info@,
                i <= self.groups@.len(),
                forall|k: int|
                    0 <= k < i ==> precedes(#[trigger] before[k].code, entry.country_code),
            ensures
                self@ == before,
                i <= self.groups@.len(),
                forall|k: int|
                    0 <= k < i ==> precedes(#[trigger] before[k].code, entry.country_code),
                i < before.len() ==> !precedes(before[i as int].code, entry.country_code),
                same <==> i < before.len() && before[i as int].code == entry.country_code,
            decreases self.groups@.len() - i,
        {
            assert(before[i as int] == self.groups@[i as int]@);
            let order: Order = string_order(
                self.groups[i].code.as_str(),
                info.country_code.as_str(),
            );
            proof {
                law_string_order(entry.country_code, before[i as int].code, entry.country_code);
            }
            match order {
                Order::Before => {
                    i = i + 1;
                },
                Order::Same => {
                    same = true;
                    break;
                },
                Order::After => {
                    break;
                },
            }
        }
        if same {
            proof {
                lemma_add_to_group(before, entry, i as int);
            }
            let mut group: CountryGroup = self.groups.remove(i);
            let ghost proxies = group.proxies@;
            assert(group@ == before[i as int]);
            group.proxies.push(info);
            assert(entries(group.proxies@) =~= entries(proxies).push(entry));
            self.groups.insert(i, group);
            assert(self@ =~= before.update(i as int, group@));
        } else {
            proof {
                lemma_add_group(before, entry, i as int);
            }
            let code: String = info.country_code.clone();
            let mut proxies: Vec<ProxyInfo> = Vec::new();
            proxies.push(info);
            assert(entries(proxies@) =~= seq![entry]);
            let group: CountryGroup = CountryGroup { code, proxies };
            self.groups.insert(i, group);
            assert(self@ =~= before.insert(i as int, group@));
        }
    }

    /// How many countries the table has.
    pub fn country_count(&self) -> (count: usize)
        ensures
            count == self@.len(),
    {
        self.groups.len()
    }

    /// The proxies of the country at a position.
    pub fn group(&self, i: usize) -> (group: &CountryGroup)
        requires
            i < self@.len(),
        ensures
            group@ == self@[i as int],
    {
        &self.groups[i]
    }

    /// How many proxies the table holds.
    pub fn proxy_count(&self) -> (count: u128)
        ensures
            count == total(self@),
    {
        let mut count: u128 = 0;
        let n: usize = self.groups.len();
        for i in 0..n
            invariant
                n == self.groups@.len(),
                count == total(self@.take(i as int)),
                count <= i * usize::MAX,
        {
            assert(self@.take(i + 1).drop_last() =~= self@.take(i as int));
            assert(self@[i as int] == self.groups@[i as int]@);
            let size: usize = self.groups[i].proxies.len();
            assert(i * usize::MAX + usize::MAX <= u64::MAX * u64::MAX) by (nonlinear_arith)
                requires
                    i + 1 <= usize::MAX,
                    usize::MAX <= u64::MAX,
            ;
            assert((i + 1) * usize::MAX == i * usize::MAX + usize::MAX) by (nonlinear_arith);
            count = count + size as u128;
        }
        assert(self@.take(n as int) =~= self@);
        count
    }
}

/// A code that has proxies has a group.
proof fn lemma_group_of(table: Seq<Group>, code: Seq<char>) -> (i: int)
    requires
        of_country(table, code).len() > 0,
    ensures
        0 <= i < table.len(),
        table[i].code == code,
    decreases table.len(),
{
    if table.last().code == code {
        table.len() - 1
    } else {
        lemma_group_of(table.drop_last(), code)
    }
}

/// A table in order is determined by the proxies of each country.
pub proof fn law_table_determined(a: Seq<Group>, b: Seq<Group>)
    requires
        table_wf(a),
        table_wf(b),
        forall|code: Seq<char>| #[trigger] of_country(a, code) == of_country(b, code),
    ensures
        a == b,
    decreases a.len(),
{
    if a.len() == 0 {
        if b.len() > 0 {
            lemma_of_country_at(b, 0);
            assert(of_country(a, b[0].code) == of_country(b, b[0].code));
        }
        assert(a =~= b);
    } else {
        let (x, y) = (a.len() - 1, b.len() - 1);
        let code = a[x].code;
        lemma_of_country_at(a, x);
        assert(of_country(a, code) == of_country(b, code));
        let i = lemma_group_of(b, code);
        lemma_of_country_at(b, y);
        assert(of_country(a, b[y].code) == of_country(b, b[y].code));
        let j = lemma_group_of(a, b[y].code);
        law_string_order(code, b[y].code, code);
        if i < y {
            assert(precedes(b[i].code, b[y].code));
        }
        if j < x {
            assert(precedes(a[j].code, a[x].code));
        }
        assert(b[y].code == code);
        let (front, other) = (a.drop_last(), b.drop_last());
        lemma_wf_front(a);
        lemma_wf_front(b);
        lemma_not_in_front(a);
        lemma_not_in_front(b);
        assert forall|c: Seq<char>| #[trigger] of_country(front, c) == of_country(other, c) by {
            assert(of_country(a, c) == of_country(b, c));
        }
        law_table_determined(front, other);
        assert(a.last() == b.last());
        assert(a =~= front.push(a.last()));
        assert(b =~= other.push(b.last()));
    }
}

/// The last code of a table in order is that of no group before.
proof fn lemma_not_in_front(table: Seq<Group>)
    requires
        table_wf(table),
        table.len() > 0,
    ensures
        of_country(table.drop_last(), table.last().code) == Seq::<ProxyEntry>::empty(),
{
    let last = table.len() - 1;
    let front = table.drop_last();
    assert forall|i: int| 0 <= i < front.len() implies (#[trigger] front[i]).code
        != table[last].code by {
        assert(precedes(table[i].code, table[last].code));
        law_string_order(table[i].code, table[last].code, table[i].code);
    }
    lemma_of_country_none(front, table[last].code);
}

/// Two proxies of different countries can be added in either order: the table is
/// the same.
pub proof fn law_arrival_order(
    start: Seq<Group>,
    first: Seq<Group>,
    first_second: Seq<Group>,
    second: Seq<Group>,
    second_first: Seq<Group>,
    x: ProxyEntry,
    y: ProxyEntry,
)
    requires
        x.country_code != y.country_code,
        grown_by(start, first, x),
        grown_by(first, first_second, y),
        grown_by(start, second, y),
        grown_by(second, second_first, x),
        table_wf(first_second),
        table_wf(second_first),
    ensures
        first_second == second_first,
{
    assert forall|code: Seq<char>| #[trigger]
        of_country(first_second, code) == of_country(second_first, code) by {
        assert(of_country(first, code) == if code == x.country_code {
            of_country(start, code).push(x)
        } else {
            of_country(start, code)
        });
        assert(of_country(second, code) == if code == y.country_code {
            of_country(start, code).push(y)
        } else {
            of_country(start, code)
        });
        assert(of_country(second_first, code) == if code == x.country_code {
            of_country(second, code).push(x)
        } else {
            of_country(second, code)
        });
    }
    law_table_determined(first_second, second_first);
}

/// Strings are ordered by the first character in which they differ, and a string
/// stands before what it is the start of.
pub proof fn law_first_difference_decides(
    start: Seq<char>,
    a: char,
    rest_of_a: Seq<char>,
    b: char,
    rest_of_b: Seq<char>,
)
    ensures
        a != b ==> (precedes(start.push(a) + rest_of_a, start.push(b) + rest_of_b) <==> (a as u32)
            < (b as u32)),
        precedes(start, start.push(b) + rest_of_b),
        !precedes(start.push(b) + rest_of_b, start),
    decreases start.len(),
{
    let x = start.push(a) + rest_of_a;
    let y = start.push(b) + rest_of_b;
    if start.len() > 0 {
        let less = start.skip(1);
        law_first_difference_decides(less, a, rest_of_a, b, rest_of_b);
        assert(x.skip(1) =~= less.push(a) + rest_of_a);
        assert(y.skip(1) =~= less.push(b) + rest_of_b);
    }
}

/// The proxies of two tables together are as many as those of both, and a country's
/// are as many as it has.
pub proof fn law_total(a: Seq<Group>, b: Seq<Group>, group: Group)
    ensures
        total(a + b) == total(a) + total(b),
        total(seq![group]) == group.proxies.len(),
    decreases b.len(),
{
    if b.len() == 0 {
        assert(a + b =~= a);
    } else {
        law_total(a, b.drop_last(), group);
        assert((a + b).drop_last() =~= a + b.drop_last());
        assert((a + b).last() == b.last());
    }
    assert(seq![group].drop_last() =~= Seq::empty());
    assert(total(Seq::empty()) == 0);
}

/// Whether a table has a country's proxies: all of them, in order.
pub open spec fn lists(table: Seq<Group>, code: Seq<char>, proxies: Seq<ProxyEntry>) -> bool {
    exists|i: int|
        0 <= i < table.len() && (#[trigger] table[i]).code == code && table[i].proxies == proxies
}

/// When a proxy was added, its country lists what it listed before and then the
/// proxy, or the proxy alone; every other country lists what it listed before; and
/// there is one proxy more.
pub proof fn law_added(
    before: Seq<Group>,
    after: Seq<Group>,
    entry: ProxyEntry,
    code: Seq<char>,
    proxies: Seq<ProxyEntry>,
)
    requires
        table_wf(before),
        table_wf(after),
        grown_by(before, after, entry),
    ensures
        lists(before, entry.country_code, proxies) ==> lists(
            after,
            entry.country_code,
            proxies.push(entry),
        ),
        (forall|i: int| 0 <= i < before.len() ==> (#[trigger] before[i]).code != entry.country_code)
            ==> lists(after, entry.country_code, seq![entry]),
        code != entry.country_code ==> (lists(before, code, proxies) <==> lists(
            after,
            code,
            proxies,
        )),
        total(after) == total(before) + 1,
{
    lemma_lists(before, entry.country_code, proxies);
    lemma_lists(after, entry.country_code, proxies.push(entry));
    lemma_lists(after, entry.country_code, seq![entry]);
    lemma_lists(before, code, proxies);
    lemma_lists(after, code, proxies);
    assert(of_country(after, entry.country_code) == of_country(before, entry.country_code).push(
        entry,
    ));
    if code != entry.country_code {
        assert(of_country(after, code) == of_country(before, code));
    }
    if forall|i: int| 0 <= i < before.len() ==> (#[trigger] before[i]).code != entry.country_code {
        lemma_of_country_none(before, entry.country_code);
        assert(Seq::<ProxyEntry>::empty().push(entry) =~= seq![entry]);
    }
}

/// A country's list is found by its code.
proof fn lemma_lists(table: Seq<Group>, code: Seq<char>, proxies: Seq<ProxyEntry>)
    requires
        table_wf(table),
    ensures
        lists(table, code, proxies) <==> proxies.len() > 0 && of_country(table, code) == proxies,
{
    if lists(table, code, proxies) {
        let i = choose|i: int|
            0 <= i < table.len() && (#[trigger] table[i]).code == code && table[i].proxies
                == proxies;
        lemma_of_country_at(table, i);
    }
    if proxies.len() > 0 && of_country(table, code) == proxies {
        let i = lemma_group_of(table, code);
        lemma_of_country_at(table, i);
    }
}

} // verus!
