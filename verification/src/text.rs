//! Text as sequences of characters: splitting, trimming and searching.

use vstd::prelude::*;

verus! {

/// `String::push`: appends one character.
pub assume_specification[ String::push ](text: &mut String, c: char)
    ensures
        final(text)@ == old(text)@.push(c),
;

/// The characters of `text`, in order.
pub fn to_chars(text: &str) -> (chars: Vec<char>)
    ensures
        chars@ == text@,
{
    let mut chars: Vec<char> = Vec::new();
    for c in it: text.chars()
        invariant
            it.seq() == text@,
            chars@ == it.seq().take(it.index() as int),
    {
        chars.push(c);
    }
    chars
}

/// The text made of `chars`.
pub fn to_text(chars: &[char]) -> (text: String)
    ensures
        text@ == chars@,
{
    let mut text: String = String::new();
    for i in 0..chars.len()
        invariant
            text@ == chars@.take(i as int),
    {
        text.push(chars[i]);
    }
    text
}


/// The contents of a list of character buffers.
pub open spec fn contents(parts: Seq<Vec<char>>) -> Seq<Seq<char>> {
    parts.map_values(|part: Vec<char>| part@)
}

/// The contents of a list of strings.
pub open spec fn texts(list: Seq<String>) -> Seq<Seq<char>> {
    list.map_values(|text: String| text@)
}

/// The characters with the Unicode property `White_Space`.
pub open spec fn is_space(c: char) -> bool {
    let code = c as u32;
    ||| 0x9 <= code <= 0xd
    ||| code == 0x20
    ||| code == 0x85
    ||| code == 0xa0
    ||| code == 0x1680
    ||| 0x2000 <= code <= 0x200a
    ||| code == 0x2028
    ||| code == 0x2029
    ||| code == 0x202f
    ||| code == 0x205f
    ||| code == 0x3000
}

/// Whether `c` is white space.
pub fn space(c: char) -> (answer: bool)
    ensures
        answer == is_space(c),
{
    let code: u32 = c as u32;
    (0x9 <= code && code <= 0xd) || code == 0x20 || code == 0x85 || code == 0xa0 || code == 0x1680
        || (0x2000 <= code && code <= 0x200a) || code == 0x2028 || code == 0x2029 || code == 0x202f
        || code == 0x205f || code == 0x3000
}

/// `c` with `A` to `Z` turned into `a` to `z`.
pub open spec fn lower(c: char) -> char {
    if 'A' <= c <= 'Z' {
        ((c as u32 + 32) as u32) as char
    } else {
        c
    }
}

/// `c` with `a` to `z` turned into `A` to `Z`.
pub open spec fn upper(c: char) -> char {
    if 'a' <= c <= 'z' {
        ((c as u32 - 32) as u32) as char
    } else {
        c
    }
}

/// Turns `A` to `Z` into `a` to `z`.
pub fn lower_char(c: char) -> (result: char)
    ensures
        result == lower(c),
{
    if 'A' <= c && c <= 'Z' {
        ((c as u8) + 32) as char
    } else {
        c
    }
}

/// Turns `a` to `z` into `A` to `Z`.
pub fn upper_char(c: char) -> (result: char)
    ensures
        result == upper(c),
{
    if 'a' <= c && c <= 'z' {
        ((c as u8) - 32) as char
    } else {
        c
    }
}

/// Whether `c` is an ASCII letter.
pub open spec fn is_letter(c: char) -> bool {
    'a' <= c <= 'z' || 'A' <= c <= 'Z'
}

/// What a text is split at.
#[derive(Clone, Copy)]
pub enum Separator {
    /// One given character.
    Is(char),
    /// Any white space.
    Space,
}

impl Separator {
    /// Whether `c` separates.
    pub open spec fn splits_at(self, c: char) -> bool {
        match self {
            Separator::Is(d) => c == d,
            Separator::Space => is_space(c),
        }
    }

    /// Whether `c` separates.
    pub fn separates(self, c: char) -> (answer: bool)
        ensures
            answer == self.splits_at(c),
    {
        match self {
            Separator::Is(d) => c == d,
            Separator::Space => space(c),
        }
    }
}

/// The pieces of `s` between separators, empty pieces included: one more piece
/// than there are separators.
pub open spec fn split(s: Seq<char>, sep: Separator) -> Seq<Seq<char>>
    decreases s.len(),
{
    if s.len() == 0 {
        seq![Seq::empty()]
    } else {
        let before = split(s.drop_last(), sep);
        if sep.splits_at(s.last()) {
            before.push(Seq::empty())
        } else {
            before.drop_last().push(before.last().push(s.last()))
        }
    }
}

/// Splits `s` at every separator.
pub fn split_chars(s: &[char], sep: Separator) -> (parts: Vec<Vec<char>>)
    ensures
        contents(parts@) == split(s@, sep),
        parts.len() > 0,
{
    let mut parts: Vec<Vec<char>> = Vec::new();
    let mut current: Vec<char> = Vec::new();
    for i in 0..s.len()
        invariant
            contents(parts@).push(current@) =~= split(s@.take(i as int), sep),
    {
        let c: char = s[i];
        assert(s@.take(i + 1).drop_last() =~= s@.take(i as int));
        if sep.separates(c) {
            let ghost before = parts@;
            let ghost open = current@;
            parts.push(current);
            current = Vec::new();
            assert(contents(parts@) =~= contents(before).push(open));
        } else {
            let ghost open = current@;
            current.push(c);
            assert(contents(parts@).push(current@) =~= split(
                s@.take(i as int),
                sep,
            ).drop_last().push(open.push(c)));
        }
    }
    assert(s@.take(s@.len() as int) =~= s@);
    let ghost before = parts@;
    let ghost open = current@;
    parts.push(current);
    assert(contents(parts@) =~= contents(before).push(open));
    parts
}

/// `s` without a carriage return at its end.
pub open spec fn chomp(s: Seq<char>) -> Seq<char> {
    if s.len() > 0 && s.last() == '\r' {
        s.drop_last()
    } else {
        s
    }
}

/// The lines of `s`: they end at a line feed, or at a carriage return and a line
/// feed. The last line needs no line feed, and keeps a carriage return if it has
/// none.
pub open spec fn lines(s: Seq<char>) -> Seq<Seq<char>> {
    let parts = split(s, Separator::Is('\n'));
    let ended = parts.drop_last().map_values(|part: Seq<char>| chomp(part));
    if parts.last().len() == 0 {
        ended
    } else {
        ended.push(parts.last())
    }
}

/// The lines of `s`.
pub fn split_lines(s: &[char]) -> (result: Vec<Vec<char>>)
    ensures
        contents(result@) == lines(s@),
{
    let mut parts: Vec<Vec<char>> = split_chars(s, Separator::Is('\n'));
    let ghost pieces = split(s@, Separator::Is('\n'));
    let ghost all = parts@;
    assert(forall|k: int| 0 <= k < all.len() ==> contents(all)[k] == #[trigger] all[k]@);
    let last: Vec<char> = match parts.pop() {
        Some(last) => last,
        None => Vec::new(),
    };
    let mut result: Vec<Vec<char>> = Vec::new();
    let ghost ended = pieces.drop_last().map_values(|part: Seq<char>| chomp(part));
    for i in 0..parts.len()
        invariant
            ended == pieces.drop_last().map_values(|part: Seq<char>| chomp(part)),
            parts@.len() == pieces.len() - 1,
            forall|k: int| 0 <= k < parts@.len() ==> pieces[k] == #[trigger] parts@[k]@,
            contents(result@) =~= ended.take(i as int),
    {
        let part: &Vec<char> = &parts[i];
        let ghost before = result@;
        let n: usize = part.len();
        let line: Vec<char> = if n > 0 && part[n - 1] == '\r' {
            subrange(part, 0, n - 1)
        } else {
            subrange(part, 0, n)
        };
        assert(part@.subrange(0, n as int) =~= part@);
        assert(line@ =~= chomp(pieces[i as int]));
        result.push(line);
        assert(contents(result@) =~= contents(before).push(line@));
    }
    assert(ended.take(parts.len() as int) =~= ended);
    if last.len() > 0 {
        let ghost before = result@;
        result.push(last);
        assert(contents(result@) =~= contents(before).push(last@));
    }
    result
}

/// A copy of the characters from `from` up to `to`.
pub fn subrange(s: &[char], from: usize, to: usize) -> (part: Vec<char>)
    requires
        from <= to <= s@.len(),
    ensures
        part@ == s@.subrange(from as int, to as int),
{
    let mut part: Vec<char> = Vec::new();
    for i in from..to
        invariant
            from <= to <= s@.len(),
            part@ =~= s@.subrange(from as int, i as int),
    {
        part.push(s[i]);
    }
    part
}

/// The pieces of a list that are not empty, in order.
pub open spec fn not_empty(parts: Seq<Seq<char>>) -> Seq<Seq<char>>
    decreases parts.len(),
{
    if parts.len() == 0 {
        Seq::empty()
    } else {
        let before = not_empty(parts.drop_last());
        if parts.last().len() > 0 {
            before.push(parts.last())
        } else {
            before
        }
    }
}

/// The words of `s`: its longest runs without white space.
pub open spec fn words(s: Seq<char>) -> Seq<Seq<char>> {
    not_empty(split(s, Separator::Space))
}

/// The words of `s`.
pub fn split_words(s: &[char]) -> (result: Vec<Vec<char>>)
    ensures
        contents(result@) == words(s@),
{
    let parts: Vec<Vec<char>> = split_chars(s, Separator::Space);
    let ghost pieces = split(s@, Separator::Space);
    assert(forall|k: int| 0 <= k < parts@.len() ==> contents(parts@)[k] == #[trigger] parts@[k]@);
    let mut result: Vec<Vec<char>> = Vec::new();
    for i in 0..parts.len()
        invariant
            parts@.len() == pieces.len(),
            forall|k: int| 0 <= k < parts@.len() ==> pieces[k] == #[trigger] parts@[k]@,
            contents(result@) =~= not_empty(pieces.take(i as int)),
    {
        let part: &Vec<char> = &parts[i];
        let ghost before = result@;
        assert(pieces.take(i + 1).drop_last() =~= pieces.take(i as int));
        if part.len() > 0 {
            let word: Vec<char> = subrange(part, 0, part.len());
            assert(word@ =~= part@);
            result.push(word);
            assert(contents(result@) =~= contents(before).push(word@));
        }
    }
    assert(pieces.take(pieces.len() as int) =~= pieces);
    result
}

/// `s` without the white space at its start.
pub open spec fn trim_start(s: Seq<char>) -> Seq<char>
    decreases s.len(),
{
    if s.len() > 0 && is_space(s[0]) {
        trim_start(s.skip(1))
    } else {
        s
    }
}

/// `s` without the white space at its end.
pub open spec fn trim_end(s: Seq<char>) -> Seq<char>
    decreases s.len(),
{
    if s.len() > 0 && is_space(s.last()) {
        trim_end(s.drop_last())
    } else {
        s
    }
}

/// `s` without the white space at either end.
pub open spec fn trim(s: Seq<char>) -> Seq<char> {
    trim_end(trim_start(s))
}

/// Removes the white space at either end.
pub fn trim_chars(s: &[char]) -> (result: Vec<char>)
    ensures
        result@ == trim(s@),
{
    let mut from: usize = 0;
    assert(s@.skip(0) =~= s@);
    while from < s.len() && space(s[from])
        invariant
            from <= s@.len(),
            trim_start(s@) == trim_start(s@.skip(from as int)),
        decreases s@.len() - from,
    {
        assert(s@.skip(from as int).skip(1) =~= s@.skip(from + 1));
        from = from + 1;
    }
    let mut to: usize = s.len();
    assert(s@.skip(from as int) =~= s@.subrange(from as int, to as int));
    while from < to && space(s[to - 1])
        invariant
            from <= to <= s@.len(),
            trim(s@) == trim_end(s@.subrange(from as int, to as int)),
        decreases to,
    {
        assert(s@.subrange(from as int, to as int).drop_last() =~= s@.subrange(
            from as int,
            to - 1,
        ));
        to = to - 1;
    }
    subrange(s, from, to)
}

/// What trimming leaves has no white space at either end.
pub proof fn law_trimmed(s: Seq<char>)
    ensures
        trim(s).len() > 0 ==> !is_space(trim(s)[0]) && !is_space(trim(s).last()),
{
    lemma_trim_start(s);
    lemma_trim_end(trim_start(s));
}

proof fn lemma_trim_start(s: Seq<char>)
    ensures
        trim_start(s).len() > 0 ==> !is_space(trim_start(s)[0]),
    decreases s.len(),
{
    if s.len() > 0 && is_space(s[0]) {
        lemma_trim_start(s.skip(1));
    }
}

proof fn lemma_trim_end(s: Seq<char>)
    ensures
        trim_end(s).len() > 0 ==> !is_space(trim_end(s).last())
            && trim_end(s)[0] == s[0],
    decreases s.len(),
{
    if s.len() > 0 && is_space(s.last()) {
        lemma_trim_end(s.drop_last());
    }
}

/// Whether `pattern` stands in `s` at position `i`.
pub open spec fn occurs_at(s: Seq<char>, pattern: Seq<char>, i: int) -> bool {
    0 <= i <= s.len() - pattern.len() && s.subrange(i, i + pattern.len()) == pattern
}

/// Whether `i` is the first position at which `pattern` stands in `s`.
pub open spec fn first_at(s: Seq<char>, pattern: Seq<char>, i: int) -> bool {
    occurs_at(s, pattern, i) && forall|j: int| 0 <= j < i ==> !occurs_at(s, pattern, j)
}

/// The first position at which `pattern` stands in `s`, if there is one.
pub open spec fn find(s: Seq<char>, pattern: Seq<char>) -> Option<int> {
    if exists|i: int| first_at(s, pattern, i) {
        Some(choose|i: int| first_at(s, pattern, i))
    } else {
        None
    }
}

/// The first position is the only one.
pub proof fn lemma_find_at(s: Seq<char>, pattern: Seq<char>, i: int)
    requires
        first_at(s, pattern, i),
    ensures
        find(s, pattern) == Some(i),
{
    let k = choose|k: int| first_at(s, pattern, k);
    assert(first_at(s, pattern, k));
    if k < i {
        assert(!occurs_at(s, pattern, k));
    }
    if i < k {
        assert(!occurs_at(s, pattern, i));
    }
}

/// Whether `pattern` stands in `s` at position `i`.
pub fn stands_at(s: &[char], pattern: &[char], i: usize) -> (answer: bool)
    ensures
        answer == occurs_at(s@, pattern@, i as int),
{
    let n: usize = s.len();
    if pattern.len() > n || i > n - pattern.len() {
        return false;
    }
    for k in 0..pattern.len()
        invariant
            n == s@.len(),
            i + pattern@.len() <= n,
            forall|m: int| 0 <= m < k ==> s@[i + m] == pattern@[m],
    {
        if s[i + k] != pattern[k] {
            assert(s@.subrange(i as int, i + pattern@.len())[k as int] != pattern@[k as int]);
            return false;
        }
    }
    assert(s@.subrange(i as int, i + pattern@.len()) =~= pattern@);
    true
}

/// The first position at which `pattern` stands in `s`.
pub fn find_chars(s: &[char], pattern: &[char]) -> (result: Option<usize>)
    ensures
        result is Some <==> find(s@, pattern@) is Some,
        result matches Some(i) ==> find(s@, pattern@) == Some(i as int) && first_at(
            s@,
            pattern@,
            i as int,
        ),
        result is None ==> forall|i: int| !occurs_at(s@, pattern@, i),
{
    let mut i: usize = 0;
    while i < s.len() && !stands_at(s, pattern, i)
        invariant
            i <= s@.len(),
            forall|j: int| 0 <= j < i ==> !occurs_at(s@, pattern@, j),
        decreases s@.len() - i,
    {
        i = i + 1;
    }
    if stands_at(s, pattern, i) {
        proof {
            lemma_find_at(s@, pattern@, i as int);
        }
        Some(i)
    } else {
        assert forall|j: int| !occurs_at(s@, pattern@, j) by {
            if occurs_at(s@, pattern@, j) {
                assert(j == i);
            }
        }
        None
    }
}

/// Whether `s` starts with `prefix`.
pub open spec fn starts_with(s: Seq<char>, prefix: Seq<char>) -> bool {
    occurs_at(s, prefix, 0)
}

/// Whether `s` starts with `prefix`.
pub fn has_prefix(s: &[char], prefix: &[char]) -> (answer: bool)
    ensures
        answer == starts_with(s@, prefix@),
{
    stands_at(s, prefix, 0)
}

/// The parts with `sep` between each two.
pub open spec fn join(parts: Seq<Seq<char>>, sep: char) -> Seq<char>
    decreases parts.len(),
{
    if parts.len() == 0 {
        Seq::empty()
    } else if parts.len() == 1 {
        parts[0]
    } else {
        join(parts.drop_last(), sep).push(sep) + parts.last()
    }
}

/// Joins the parts with `sep` between each two.
pub fn join_chars(parts: &Vec<Vec<char>>, sep: char) -> (result: Vec<char>)
    ensures
        result@ == join(contents(parts@), sep),
{
    let mut result: Vec<char> = Vec::new();
    let ghost pieces = contents(parts@);
    for i in 0..parts.len()
        invariant
            pieces == contents(parts@),
            result@ =~= join(pieces.take(i as int), sep),
    {
        if i > 0 {
            result.push(sep);
        }
        let ghost before = result@;
        let part: &Vec<char> = &parts[i];
        append_chars(&mut result, part);
        assert(pieces.take(i + 1).drop_last() =~= pieces.take(i as int));
        assert(pieces.take(i + 1).last() == part@);
    }
    assert(pieces.take(pieces.len() as int) =~= pieces);
    result
}

/// Appends `more` to `target`.
pub fn append_chars(target: &mut Vec<char>, more: &[char])
    ensures
        final(target)@ == old(target)@ + more@,
{
    let ghost before = target@;
    for i in 0..more.len()
        invariant
            target@ =~= before + more@.take(i as int),
    {
        target.push(more[i]);
    }
    assert(more@.take(more@.len() as int) =~= more@);
}

/// Splitting always gives at least one piece.
pub proof fn lemma_split_some(s: Seq<char>, sep: Separator)
    ensures
        split(s, sep).len() > 0,
    decreases s.len(),
{
    if s.len() > 0 {
        lemma_split_some(s.drop_last(), sep);
    }
}

/// Text without separators only lengthens the last piece.
pub proof fn lemma_split_extend(s: Seq<char>, more: Seq<char>, sep: Separator)
    requires
        forall|i: int| 0 <= i < more.len() ==> !sep.splits_at(#[trigger] more[i]),
    ensures
        split(s + more, sep) == split(s, sep).drop_last().push(split(s, sep).last() + more),
    decreases more.len(),
{
    lemma_split_some(s, sep);
    if more.len() == 0 {
        assert(s + more =~= s);
        assert(split(s, sep).last() + more =~= split(s, sep).last());
        assert(split(s, sep).drop_last().push(split(s, sep).last()) =~= split(s, sep));
    } else {
        let less = more.drop_last();
        assert forall|i: int| 0 <= i < less.len() implies !sep.splits_at(#[trigger] less[i]) by {
            assert(less[i] == more[i]);
        }
        lemma_split_extend(s, less, sep);
        assert((s + more).drop_last() =~= s + less);
        assert((s + more).last() == more[more.len() - 1]);
        assert(split(s, sep).last() + more =~= (split(s, sep).last() + less).push(more.last()));
        assert(split(s + less, sep).drop_last() =~= split(s, sep).drop_last());
    }
}

/// Splitting undoes joining, if no part holds the separator.
pub proof fn law_split_of_join(parts: Seq<Seq<char>>, sep: char)
    requires
        parts.len() > 0,
        forall|i: int| 0 <= i < parts.len() ==> !(#[trigger] parts[i]).contains(sep),
    ensures
        split(join(parts, sep), Separator::Is(sep)) == parts,
    decreases parts.len(),
{
    let at = Separator::Is(sep);
    let last = parts.last();
    assert(!parts[parts.len() - 1].contains(sep));
    assert forall|i: int| 0 <= i < last.len() implies !at.splits_at(#[trigger] last[i]) by {
        if at.splits_at(last[i]) {
            assert(last.contains(sep));
        }
    }
    if parts.len() == 1 {
        lemma_split_extend(Seq::empty(), last, at);
        assert(Seq::<char>::empty() + last =~= last);
        assert(split(Seq::empty(), at) =~= seq![Seq::<char>::empty()]);
        assert(split(last, at) =~= parts);
    } else {
        let front = parts.drop_last();
        assert forall|i: int| 0 <= i < front.len() implies !(#[trigger] front[i]).contains(
            sep,
        ) by {
            assert(front[i] == parts[i]);
        }
        law_split_of_join(front, sep);
        let start = join(front, sep).push(sep);
        assert(start.drop_last() =~= join(front, sep));
        assert(split(start, at) == front.push(Seq::empty()));
        lemma_split_extend(start, last, at);
        assert(Seq::<char>::empty() + last =~= last);
        assert(front.push(Seq::empty()).drop_last() =~= front);
        assert(front.push(last) =~= parts);
    }
}

/// Joining undoes splitting.
pub proof fn law_join_of_split(s: Seq<char>, sep: char)
    ensures
        join(split(s, Separator::Is(sep)), sep) == s,
        forall|i: int|
            0 <= i < split(s, Separator::Is(sep)).len() ==> !(#[trigger] split(
                s,
                Separator::Is(sep),
            )[i]).contains(sep),
    decreases s.len(),
{
    let at = Separator::Is(sep);
    if s.len() == 0 {
        assert(join(split(s, at), sep) =~= s);
    } else {
        let front = s.drop_last();
        let before = split(front, at);
        let c = s.last();
        lemma_split_some(front, at);
        law_join_of_split(front, sep);
        if c == sep {
            let now = before.push(Seq::empty());
            assert(now.drop_last() =~= before);
            assert(join(now, sep) =~= s);
        } else {
            let now = before.drop_last().push(before.last().push(c));
            assert(now.drop_last() =~= before.drop_last());
            if before.len() == 1 {
                assert(join(now, sep) =~= s);
            } else {
                assert(join(before, sep) == join(before.drop_last(), sep).push(sep)
                    + before.last());
                assert(join(now, sep) =~= join(before, sep).push(c));
                assert(join(now, sep) =~= s);
            }
            assert forall|i: int| 0 <= i < now.len() implies !(#[trigger] now[i]).contains(sep) by {
                if i < now.len() - 1 {
                    assert(now[i] == before[i]);
                } else {
                    let last = before[before.len() - 1];
                    if now[i].contains(sep) {
                        let k = choose|k: int| 0 <= k < now[i].len() && now[i][k] == sep;
                        assert(k < last.len());
                        assert(last[k] == sep);
                    }
                }
            }
        }
    }
}

/// A separator between two texts parts their pieces.
proof fn lemma_split_concat(a: Seq<char>, c: char, b: Seq<char>, sep: Separator)
    requires
        sep.splits_at(c),
    ensures
        split(a.push(c) + b, sep) == split(a, sep) + split(b, sep),
    decreases b.len(),
{
    let s = a.push(c) + b;
    lemma_split_some(a, sep);
    lemma_split_some(b, sep);
    if b.len() == 0 {
        assert(s =~= a.push(c));
        assert(s.drop_last() =~= a);
        assert(split(s, sep) =~= split(a, sep) + split(b, sep));
    } else {
        let less = b.drop_last();
        lemma_split_concat(a, c, less, sep);
        lemma_split_some(less, sep);
        assert(s.drop_last() =~= a.push(c) + less);
        assert(s.last() == b.last());
        assert(split(s, sep) =~= split(a, sep) + split(b, sep));
    }
}

/// Splitting gives the text before the first separator, and then what splitting
/// the text after it gives; a text without separators is one piece.
pub proof fn law_split_pieces(piece: Seq<char>, c: char, rest: Seq<char>, sep: Separator)
    requires
        forall|i: int| 0 <= i < piece.len() ==> !sep.splits_at(#[trigger] piece[i]),
    ensures
        split(piece, sep) == seq![piece],
        sep.splits_at(c) ==> split(piece.push(c) + rest, sep) == seq![piece] + split(rest, sep),
{
    lemma_split_extend(Seq::empty(), piece, sep);
    assert(Seq::<char>::empty() + piece =~= piece);
    assert(split(Seq::empty(), sep) =~= seq![Seq::<char>::empty()]);
    assert(split(piece, sep) =~= seq![piece]);
    if sep.splits_at(c) {
        lemma_split_concat(piece, c, rest, sep);
    }
}

/// The lines of a text are what stands before its first line feed, without a
/// carriage return at the end, and then the lines of the rest. Without a line feed
/// the whole text is one line, unless it is empty.
pub proof fn law_lines(row: Seq<char>, rest: Seq<char>)
    requires
        !row.contains('\n'),
    ensures
        lines(row.push('\n') + rest) == seq![
            if row.len() > 0 && row.last() == '\r' {
                row.drop_last()
            } else {
                row
            },
        ] + lines(rest),
        lines(row) == if row.len() > 0 {
            seq![row]
        } else {
            Seq::empty()
        },
{
    let at = Separator::Is('\n');
    assert forall|i: int| 0 <= i < row.len() implies !at.splits_at(#[trigger] row[i]) by {
        if row[i] == '\n' {
            assert(row.contains('\n'));
        }
    }
    law_split_pieces(row, '\n', rest, at);
    lemma_split_some(rest, at);
    let after = split(rest, at);
    let parts = seq![row] + after;
    assert(parts.drop_last() =~= seq![row] + after.drop_last());
    assert(parts.last() == after.last());
    assert(lines(row.push('\n') + rest) =~= seq![chomp(row)] + lines(rest));
    assert(seq![row].drop_last() =~= Seq::empty());
    assert(lines(row) =~= if row.len() > 0 {
        seq![row]
    } else {
        Seq::empty()
    });
}

/// The lines of a text that ends in a line feed, and then those of another, are the
/// lines of the two together.
pub proof fn law_lines_concat(a: Seq<char>, b: Seq<char>)
    requires
        a.len() > 0,
        a.last() == '\n',
    ensures
        lines(a + b) == lines(a) + lines(b),
{
    let at = Separator::Is('\n');
    let front = a.drop_last();
    assert(front.push('\n') =~= a);
    assert(a + Seq::<char>::empty() =~= a);
    lemma_split_concat(front, '\n', b, at);
    lemma_split_concat(front, '\n', Seq::empty(), at);
    lemma_split_some(b, at);
    let (before, after) = (split(front, at), split(b, at));
    assert((before + after).drop_last() =~= before + after.drop_last());
    assert((before + after).last() == after.last());
    assert(split(a, at).drop_last() =~= before);
    assert(lines(a + b) =~= lines(a) + lines(b));
}

/// Leaving out empty pieces goes list by list.
pub proof fn law_not_empty_concat(a: Seq<Seq<char>>, b: Seq<Seq<char>>)
    ensures
        not_empty(a + b) == not_empty(a) + not_empty(b),
        forall|x: Seq<char>|
            not_empty(#[trigger] seq![x]) == if x.len() > 0 {
                seq![x]
            } else {
                Seq::empty()
            },
    decreases b.len(),
{
    if b.len() == 0 {
        assert(a + b =~= a);
        assert(not_empty(a) + not_empty(b) =~= not_empty(a));
    } else {
        law_not_empty_concat(a, b.drop_last());
        assert((a + b).drop_last() =~= a + b.drop_last());
        assert((a + b).last() == b.last());
        assert(not_empty(a + b) =~= not_empty(a) + not_empty(b));
    }
    assert forall|x: Seq<char>|
        not_empty(#[trigger] seq![x]) == if x.len() > 0 {
            seq![x]
        } else {
            Seq::empty()
        } by {
        assert(seq![x].drop_last() =~= Seq::empty());
        assert(not_empty(Seq::empty()) =~= Seq::empty());
        assert(not_empty(seq![x]) =~= if x.len() > 0 {
            seq![x]
        } else {
            Seq::empty()
        });
    }
}

/// The words of a text are what stands before the first white space, and then the
/// words of the rest. White space at the start counts for nothing, and a text
/// without white space is one word, unless it is empty.
pub proof fn law_words(word: Seq<char>, c: char, rest: Seq<char>)
    requires
        is_space(c),
        forall|i: int| 0 <= i < word.len() ==> !is_space(#[trigger] word[i]),
    ensures
        word.len() > 0 ==> words(word) == seq![word],
        word.len() > 0 ==> words(word.push(c) + rest) == seq![word] + words(rest),
        words(seq![c] + rest) == words(rest),
        words(Seq::empty()) == Seq::<Seq<char>>::empty(),
{
    let at = Separator::Space;
    let none = Seq::<char>::empty();
    assert forall|i: int| 0 <= i < word.len() implies !at.splits_at(#[trigger] word[i]) by {
        assert(!is_space(word[i]));
    }
    law_split_pieces(word, c, rest, at);
    law_not_empty_concat(seq![word], split(rest, at));
    law_split_pieces(none, c, rest, at);
    law_not_empty_concat(seq![none], split(rest, at));
    assert(none.push(c) =~= seq![c]);
    assert(Seq::<Seq<char>>::empty() + words(rest) =~= words(rest));
}

/// White space at the start is removed.
proof fn lemma_trim_start_concat(a: Seq<char>, t: Seq<char>)
    requires
        forall|i: int| 0 <= i < a.len() ==> is_space(#[trigger] a[i]),
    ensures
        trim_start(a + t) == trim_start(t),
    decreases a.len(),
{
    if a.len() == 0 {
        assert(a + t =~= t);
    } else {
        let less = a.skip(1);
        assert forall|i: int| 0 <= i < less.len() implies is_space(#[trigger] less[i]) by {
            assert(less[i] == a[i + 1]);
        }
        assert(is_space(a[0]));
        assert((a + t).skip(1) =~= less + t);
        lemma_trim_start_concat(less, t);
    }
}

/// White space at the end is removed.
proof fn lemma_trim_end_concat(t: Seq<char>, b: Seq<char>)
    requires
        forall|i: int| 0 <= i < b.len() ==> is_space(#[trigger] b[i]),
    ensures
        trim_end(t + b) == trim_end(t),
    decreases b.len(),
{
    if b.len() == 0 {
        assert(t + b =~= t);
    } else {
        let less = b.drop_last();
        assert forall|i: int| 0 <= i < less.len() implies is_space(#[trigger] less[i]) by {
            assert(less[i] == b[i]);
        }
        assert(is_space(b[b.len() - 1]));
        assert((t + b).drop_last() =~= t + less);
        lemma_trim_end_concat(t, less);
    }
}

/// Trimming leaves exactly what stands between the white space at the two ends.
pub proof fn law_trim(a: Seq<char>, s: Seq<char>, b: Seq<char>)
    requires
        forall|i: int| 0 <= i < a.len() ==> is_space(#[trigger] a[i]),
        forall|i: int| 0 <= i < b.len() ==> is_space(#[trigger] b[i]),
        s.len() > 0 ==> !is_space(s[0]) && !is_space(s.last()),
    ensures
        trim(a + s + b) == s,
{
    let none = Seq::<char>::empty();
    assert(a + s + b =~= a + (s + b));
    lemma_trim_start_concat(a, s + b);
    if s.len() == 0 {
        assert(s + b =~= b + none);
        lemma_trim_start_concat(b, none);
        assert(trim(a + s + b) =~= s);
    } else {
        assert((s + b)[0] == s[0]);
        lemma_trim_end_concat(s, b);
    }
}

/// Whether `pattern` is spelled in `s` from position `i` on.
pub open spec fn spelled_at(s: Seq<char>, pattern: Seq<char>, i: int) -> bool {
    &&& 0 <= i
    &&& i + pattern.len() <= s.len()
    &&& forall|k: int| 0 <= k < pattern.len() ==> s[i + k] == #[trigger] pattern[k]
}

/// A pattern stands where it is spelled.
proof fn lemma_spelled(s: Seq<char>, pattern: Seq<char>, i: int)
    ensures
        occurs_at(s, pattern, i) <==> spelled_at(s, pattern, i),
{
    let n = pattern.len() as int;
    if occurs_at(s, pattern, i) {
        assert forall|k: int| 0 <= k < n implies s[i + k] == #[trigger] pattern[k] by {
            assert(s.subrange(i, i + n)[k] == s[i + k]);
        }
    }
    if spelled_at(s, pattern, i) {
        assert(s.subrange(i, i + n) =~= pattern);
    }
}

/// What is found is the first position at which the pattern is spelled, and
/// nothing is found only where it is spelled nowhere.
pub proof fn law_find(s: Seq<char>, pattern: Seq<char>, i: int)
    ensures
        find(s, pattern) == Some(i) <==> {
            &&& spelled_at(s, pattern, i)
            &&& forall|j: int| 0 <= j < i ==> !(#[trigger] spelled_at(s, pattern, j))
        },
        find(s, pattern) is None ==> !spelled_at(s, pattern, i),
        starts_with(s, pattern) <==> spelled_at(s, pattern, 0),
    decreases i,
{
    assert forall|j: int| #[trigger]
        occurs_at(s, pattern, j) <==> spelled_at(s, pattern, j) by {
        lemma_spelled(s, pattern, j);
    }
    lemma_spelled(s, pattern, 0);
    lemma_spelled(s, pattern, i);
    if spelled_at(s, pattern, i) {
        if forall|j: int| 0 <= j < i ==> !(#[trigger] spelled_at(s, pattern, j)) {
            assert forall|j: int| 0 <= j < i implies !occurs_at(s, pattern, j) by {
                assert(!spelled_at(s, pattern, j));
            }
            assert(first_at(s, pattern, i));
            lemma_find_at(s, pattern, i);
        } else {
            let j = choose|j: int| 0 <= j < i && #[trigger] spelled_at(s, pattern, j);
            law_find(s, pattern, j);
        }
    }
    if find(s, pattern) == Some(i) {
        let k = choose|k: int| first_at(s, pattern, k);
        assert(first_at(s, pattern, k));
        assert forall|j: int| 0 <= j < i implies !(#[trigger] spelled_at(s, pattern, j)) by {
            lemma_spelled(s, pattern, j);
        }
    }
}

/// A letter and its lower case differ by thirty-two; other characters are their
/// own lower case.
pub proof fn lemma_lower(c: char)
    ensures
        'A' <= c <= 'Z' ==> lower(c) as u32 == c as u32 + 32,
        !('A' <= c <= 'Z') ==> lower(c) == c,
{
}

} // verus!
