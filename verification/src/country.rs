//! Countries: the flag and the name that belong to a two-letter code.

use vstd::prelude::*;

use crate::text::{to_chars, upper_char};
#[allow(unused_imports)]
use crate::text::{is_letter, upper};
#[allow(unused_imports)]
use vstd::utf8::is_ascii_chars;

verus! {

/// `char::from_u32`: the character with a code point, if it is one of a Unicode
/// scalar value.
pub assume_specification[ char::from_u32 ](code: u32) -> (result: Option<char>)
    ensures
        result is Some <==> (code <= 0xd7ff || 0xe000 <= code <= 0x10ffff),
        result matches Some(c) ==> c as u32 == code,
;

/// The regional indicator symbol of an ASCII letter, in either case.
pub open spec fn indicator(c: char) -> char {
    ((0x1f1e6 + (upper(c) as u32 - 'A' as u32)) as u32) as char
}

/// The flag of a code: the indicator symbols of its ASCII letters, in order.
pub open spec fn flag(code: Seq<char>) -> Seq<char>
    decreases code.len(),
{
    if code.len() == 0 {
        Seq::empty()
    } else if is_letter(code.last()) {
        flag(code.drop_last()).push(indicator(code.last()))
    } else {
        flag(code.drop_last())
    }
}

/// The flag of a code.
pub fn country_flag(code: &str) -> (result: String)
    ensures
        result@ == flag(code@),
{
    let chars: Vec<char> = to_chars(code);
    let mut result: String = String::new();
    for i in 0..chars.len()
        invariant
            chars@ == code@,
            result@ == flag(code@.take(i as int)),
    {
        assert(code@.take(i + 1).drop_last() =~= code@.take(i as int));
        let c: char = chars[i];
        if ('a' <= c && c <= 'z') || ('A' <= c && c <= 'Z') {
            let letter: char = upper_char(c);
            let code_point: u32 = 0x1f1e6 + (letter as u32 - 'A' as u32);
            if let Some(symbol) = char::from_u32(code_point) {
                proof {
                    vstd::utf8::char_u32_cast(symbol, code_point);
                }
                result.push(symbol);
            }
        }
    }
    assert(code@.take(code@.len() as int) =~= code@);
    result
}

/// The English name of the country with a code, if it is in the list.
pub open spec fn english_name(first: char, second: char) -> Option<Seq<char>> {
    match (first, second) {
        ('U', 'S') => Some("United States"@),
        ('D', 'E') => Some("Germany"@),
        ('G', 'B') => Some("United Kingdom"@),
        ('F', 'R') => Some("France"@),
        ('N', 'L') => Some("Netherlands"@),
        ('C', 'A') => Some("Canada"@),
        ('A', 'U') => Some("Australia"@),
        ('J', 'P') => Some("Japan"@),
        ('C', 'N') => Some("China"@),
        ('S', 'G') => Some("Singapore"@),
        ('K', 'R') => Some("South Korea"@),
        ('I', 'N') => Some("India"@),
        ('R', 'U') => Some("Russia"@),
        ('B', 'R') => Some("Brazil"@),
        ('I', 'T') => Some("Italy"@),
        ('E', 'S') => Some("Spain"@),
        ('S', 'E') => Some("Sweden"@),
        ('C', 'H') => Some("Switzerland"@),
        ('T', 'R') => Some("Turkey"@),
        ('P', 'L') => Some("Poland"@),
        ('F', 'I') => Some("Finland"@),
        ('N', 'O') => Some("Norway"@),
        ('I', 'E') => Some("Ireland"@),
        ('B', 'E') => Some("Belgium"@),
        ('A', 'T') => Some("Austria"@),
        ('D', 'K') => Some("Denmark"@),
        ('C', 'Z') => Some("Czech Republic"@),
        ('U', 'A') => Some("Ukraine"@),
        ('H', 'K') => Some("Hong Kong"@),
        ('T', 'W') => Some("Taiwan"@),
        ('I', 'R') => Some("Iran"@),
        ('Z', 'A') => Some("South Africa"@),
        ('R', 'O') => Some("Romania"@),
        ('I', 'D') => Some("Indonesia"@),
        ('V', 'N') => Some("Vietnam"@),
        ('T', 'H') => Some("Thailand"@),
        ('M', 'Y') => Some("Malaysia"@),
        ('M', 'X') => Some("Mexico"@),
        ('A', 'R') => Some("Argentina"@),
        ('C', 'L') => Some("Chile"@),
        ('C', 'O') => Some("Colombia"@),
        ('I', 'L') => Some("Israel"@),
        ('A', 'E') => Some("United Arab Emirates"@),
        ('S', 'A') => Some("Saudi Arabia"@),
        ('P', 'T') => Some("Portugal"@),
        ('H', 'U') => Some("Hungary"@),
        ('G', 'R') => Some("Greece"@),
        ('B', 'G') => Some("Bulgaria"@),
        _ => None,
    }
}

/// The English name of the country with a code.
fn find_name(first: char, second: char) -> (name: Option<&'static str>)
    ensures
        match name {
            Some(text) => english_name(first, second) == Some(text@),
            None => english_name(first, second) is None,
        },
{
    match (first, second) {
        ('U', 'S') => Some("United States"),
        ('D', 'E') => Some("Germany"),
        ('G', 'B') => Some("United Kingdom"),
        ('F', 'R') => Some("France"),
        ('N', 'L') => Some("Netherlands"),
        ('C', 'A') => Some("Canada"),
        ('A', 'U') => Some("Australia"),
        ('J', 'P') => Some("Japan"),
        ('C', 'N') => Some("China"),
        ('S', 'G') => Some("Singapore"),
        ('K', 'R') => Some("South Korea"),
        ('I', 'N') => Some("India"),
        ('R', 'U') => Some("Russia"),
        ('B', 'R') => Some("Brazil"),
        ('I', 'T') => Some("Italy"),
        ('E', 'S') => Some("Spain"),
        ('S', 'E') => Some("Sweden"),
        ('C', 'H') => Some("Switzerland"),
        ('T', 'R') => Some("Turkey"),
        ('P', 'L') => Some("Poland"),
        ('F', 'I') => Some("Finland"),
        ('N', 'O') => Some("Norway"),
        ('I', 'E') => Some("Ireland"),
        ('B', 'E') => Some("Belgium"),
        ('A', 'T') => Some("Austria"),
        ('D', 'K') => Some("Denmark"),
        ('C', 'Z') => Some("Czech Republic"),
        ('U', 'A') => Some("Ukraine"),
        ('H', 'K') => Some("Hong Kong"),
        ('T', 'W') => Some("Taiwan"),
        ('I', 'R') => Some("Iran"),
        ('Z', 'A') => Some("South Africa"),
        ('R', 'O') => Some("Romania"),
        ('I', 'D') => Some("Indonesia"),
        ('V', 'N') => Some("Vietnam"),
        ('T', 'H') => Some("Thailand"),
        ('M', 'Y') => Some("Malaysia"),
        ('M', 'X') => Some("Mexico"),
        ('A', 'R') => Some("Argentina"),
        ('C', 'L') => Some("Chile"),
        ('C', 'O') => Some("Colombia"),
        ('I', 'L') => Some("Israel"),
        ('A', 'E') => Some("United Arab Emirates"),
        ('S', 'A') => Some("Saudi Arabia"),
        ('P', 'T') => Some("Portugal"),
        ('H', 'U') => Some("Hungary"),
        ('G', 'R') => Some("Greece"),
        ('B', 'G') => Some("Bulgaria"),
        _ => None,
    }
}

/// The name of the country whose code in upper case is `capitals`, or `code`
/// where the list has none.
pub open spec fn country_name(capitals: Seq<char>, code: Seq<char>) -> Seq<char> {
    if capitals.len() == 2 {
        match english_name(capitals[0], capitals[1]) {
            Some(name) => name,
            None => code,
        }
    } else {
        code
    }
}

/// The name of the country whose code in upper case is `capitals`, or `code`.
pub fn name_of_capitals(capitals: &str, code: &str) -> (name: String)
    ensures
        name@ == country_name(capitals@, code@),
{
    let chars: Vec<char> = to_chars(capitals);
    if chars.len() == 2 {
        match find_name(chars[0], chars[1]) {
            Some(name) => name.to_string(),
            None => code.to_string(),
        }
    } else {
        code.to_string()
    }
}

/// What `str::to_uppercase` makes of a text.
pub uninterp spec fn upper_case(s: Seq<char>) -> Seq<char>;

/// ASCII letters in upper case, other characters as they are.
pub open spec fn ascii_upper(s: Seq<char>) -> Seq<char> {
    s.map_values(|c: char| upper(c))
}

/// `str::to_uppercase`: the text in upper case by the tables of Unicode. ASCII
/// text has its letters turned into `A` to `Z`; other text is left to the name
/// `upper_case`.
#[verifier::external_body]
fn to_upper_case(text: &str) -> (result: String)
    ensures
        result@ == upper_case(text@),
        is_ascii_chars(text@) ==> result@ == ascii_upper(text@),
{
    text.to_uppercase()
}

/// A code in upper case.
pub open spec fn capitals(code: Seq<char>) -> Seq<char> {
    if is_ascii_chars(code) {
        ascii_upper(code)
    } else {
        upper_case(code)
    }
}

/// The name of the country with a code in any case, or the code itself where the
/// list has none.
pub open spec fn shown_name(code: Seq<char>) -> Seq<char> {
    country_name(capitals(code), code)
}

/// The name of the country with a code in any case, or the code itself where the
/// list has none.
pub fn get_country_name(code: &str) -> (name: String)
    ensures
        name@ == shown_name(code@),
{
    let upper: String = to_upper_case(code);
    name_of_capitals(upper.as_str(), code)
}

/// The flag of a code does not depend on the case of its letters, and a code of
/// letters only has a flag of as many symbols.
pub proof fn law_flag_ignores_case(code: Seq<char>)
    ensures
        flag(ascii_upper(code)) == flag(code),
        (forall|i: int| 0 <= i < code.len() ==> is_letter(#[trigger] code[i])) ==> flag(
            code,
        ).len() == code.len(),
    decreases code.len(),
{
    if code.len() > 0 {
        let front = code.drop_last();
        law_flag_ignores_case(front);
        assert(ascii_upper(code).drop_last() =~= ascii_upper(front));
        if forall|i: int| 0 <= i < code.len() ==> is_letter(#[trigger] code[i]) {
            assert(is_letter(code[code.len() - 1]));
            assert forall|i: int| 0 <= i < front.len() implies is_letter(#[trigger] front[i]) by {
                assert(front[i] == code[i]);
            }
        }
    } else {
        assert(ascii_upper(code) =~= code);
    }
}

/// The case of a code that the list knows does not matter: codes that are the same
/// in upper case have the same name, unless they stand for themselves. An ASCII
/// code is the same in upper case as its letters turned into `A` to `Z`, and has
/// the name that the list has for these.
pub proof fn law_name_ignores_case(a: Seq<char>, b: Seq<char>)
    ensures
        capitals(a) == capitals(b) && shown_name(a) != a ==> shown_name(b) == shown_name(a),
        is_ascii_chars(a) ==> capitals(ascii_upper(a)) == capitals(a),
        is_ascii_chars(a) && a.len() == 2 ==> shown_name(a) == match english_name(
            upper(a[0]),
            upper(a[1]),
        ) {
            Some(name) => name,
            None => a,
        },
{
    if is_ascii_chars(a) {
        assert(ascii_upper(ascii_upper(a)) =~= ascii_upper(a));
        assert forall|i: int| 0 <= i < ascii_upper(a).len() implies (
        #[trigger] ascii_upper(a)[i]) as nat <= 0x7f by {
            assert(a[i] as nat <= 0x7f);
        }
        assert(is_ascii_chars(ascii_upper(a)));
    }
}

/// The flag of two codes together is the flags of both. A letter has the regional
/// indicator symbol of the same place in the alphabet, in either case, and another
/// character has none.
pub proof fn law_flag_letter_by_letter(a: Seq<char>, b: Seq<char>, c: char)
    ensures
        flag(a + b) == flag(a) + flag(b),
        'a' <= c <= 'z' ==> flag(seq![c]).len() == 1 && flag(seq![c])[0] as u32 - 0x1f1e6 == c as u32
            - 'a' as u32,
        'A' <= c <= 'Z' ==> flag(seq![c]).len() == 1 && flag(seq![c])[0] as u32 - 0x1f1e6 == c as u32
            - 'A' as u32,
        !('a' <= c <= 'z') && !('A' <= c <= 'Z') ==> flag(seq![c]) == Seq::<char>::empty(),
    decreases b.len(),
{
    if b.len() == 0 {
        assert(a + b =~= a);
        assert(flag(a) + flag(b) =~= flag(a));
    } else {
        law_flag_letter_by_letter(a, b.drop_last(), c);
        assert((a + b).drop_last() =~= a + b.drop_last());
        assert((a + b).last() == b.last());
        assert(flag(a + b) =~= flag(a) + flag(b));
    }
    assert(seq![c].drop_last() =~= Seq::empty());
    assert(flag(Seq::empty()) =~= Seq::empty());
}

/// A code that is not two characters long in upper case stands for itself.
pub proof fn law_long_code_stands_for_itself(code: &str, name: String)
    requires
        call_ensures(get_country_name, (code,), name),
    ensures
        capitals(code@).len() != 2 ==> name@ == code@,
        is_ascii_chars(code@) && code@.len() != 2 ==> name@ == code@,
{
}

} // verus!
