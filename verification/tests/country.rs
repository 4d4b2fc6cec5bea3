use edge_scan::country::{country_flag, get_country_name, name_of_capitals};

#[test]
fn flags_are_made_of_the_letters() {
    assert_eq!(country_flag("US"), "\u{1f1fa}\u{1f1f8}");
    assert_eq!(country_flag("de"), "\u{1f1e9}\u{1f1ea}");
    assert_eq!(country_flag("aZ"), "\u{1f1e6}\u{1f1ff}");
    assert_eq!(country_flag("T1"), "\u{1f1f9}");
    assert_eq!(country_flag("\u{e9}-"), "");
    assert_eq!(country_flag(""), "");
}

#[test]
fn names_are_known_in_any_case() {
    let known = [
        ("US", "United States"), ("DE", "Germany"), ("GB", "United Kingdom"), ("FR", "France"),
        ("NL", "Netherlands"), ("CA", "Canada"), ("AU", "Australia"), ("JP", "Japan"),
        ("CN", "China"), ("SG", "Singapore"), ("KR", "South Korea"), ("IN", "India"),
        ("RU", "Russia"), ("BR", "Brazil"), ("IT", "Italy"), ("ES", "Spain"), ("SE", "Sweden"),
        ("CH", "Switzerland"), ("TR", "Turkey"), ("PL", "Poland"), ("FI", "Finland"),
        ("NO", "Norway"), ("IE", "Ireland"), ("BE", "Belgium"), ("AT", "Austria"),
        ("DK", "Denmark"), ("CZ", "Czech Republic"), ("UA", "Ukraine"), ("HK", "Hong Kong"),
        ("TW", "Taiwan"), ("IR", "Iran"), ("ZA", "South Africa"), ("RO", "Romania"),
        ("ID", "Indonesia"), ("VN", "Vietnam"), ("TH", "Thailand"), ("MY", "Malaysia"),
        ("MX", "Mexico"), ("AR", "Argentina"), ("CL", "Chile"), ("CO", "Colombia"),
        ("IL", "Israel"), ("AE", "United Arab Emirates"), ("SA", "Saudi Arabia"),
        ("PT", "Portugal"), ("HU", "Hungary"), ("GR", "Greece"), ("BG", "Bulgaria"),
    ];
    assert_eq!(known.len(), 48);
    for (code, name) in known {
        assert_eq!(get_country_name(code), name);
        assert_eq!(get_country_name(&code.to_lowercase()), name);
        assert_eq!(name_of_capitals(code, "other"), name);
    }
}

#[test]
fn unknown_codes_stand_for_themselves() {
    for code in ["XX", "xx", "", "U", "USA", "us ", "\u{df}"] {
        assert_eq!(get_country_name(code), code);
    }
    assert_eq!(name_of_capitals("us", "given"), "given");
}

#[test]
fn letters_outside_ascii_have_capitals_too() {
    assert_eq!(get_country_name("\u{fb01}"), "Finland");
    assert_eq!(get_country_name("\u{131}t"), "Italy");
    assert_eq!(get_country_name("\u{17f}e"), "Sweden");
}
