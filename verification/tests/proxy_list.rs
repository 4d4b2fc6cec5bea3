use edge_scan::address::IpAddr;
use edge_scan::proxy_list::{
    known_self_ip, lookup_target, private_domains, read_csv_candidates, resolved_ips,
    ProxyCandidates,
};

fn rows(list: &[(&str, u16)]) -> Vec<(String, u16)> {
    list.iter().map(|(ip, port)| (ip.to_string(), *port)).collect()
}

#[test]
fn the_list_is_read_line_by_line() {
    let list = "1.1.1.1,443\n\n  \n2.2.2.2 , 8443 ,x\r\nalone\n3.3.3.3,none\n,443\n4.4.4.4,70000\n5.5.5.5,+80";
    assert_eq!(
        read_csv_candidates(list),
        rows(&[
            ("1.1.1.1", 443), ("2.2.2.2", 8443), ("3.3.3.3", 443), ("", 443), ("4.4.4.4", 443),
            ("5.5.5.5", 80),
        ])
    );
    assert!(read_csv_candidates("").is_empty());
    assert_eq!(read_csv_candidates(" , "), rows(&[("", 443)]));
}

#[test]
fn names_stand_one_on_each_line() {
    assert_eq!(private_domains(" a.example \n\n\tb.example\r\n   \n"), vec!["a.example", "b.example"]);
    assert!(private_domains(" \n").is_empty());
    assert_eq!(lookup_target("a.example"), "a.example:443");
}

#[test]
fn a_name_must_resolve_to_something() {
    assert_eq!(resolved_ips(&vec![]), None);
    assert_eq!(
        resolved_ips(&vec![IpAddr::V4(0x01010101), IpAddr::V6(1)]),
        Some(vec!["1.1.1.1".to_string(), "::1".to_string()])
    );
}

#[test]
fn the_own_address_is_trimmed_or_stood_in_for() {
    assert_eq!(known_self_ip(Some(" 9.9.9.9\n")), "9.9.9.9");
    assert_eq!(known_self_ip(None), "0.0.0.0");
}

#[test]
fn each_fitting_address_is_listed_once_where_it_first_came() {
    let mut candidates = ProxyCandidates::new();
    candidates.add_listed(rows(&[("b", 443), ("a", 80), ("b", 443), ("c", 443), ("a", 443)]));
    candidates.add_resolved(vec!["c".to_string(), "d".to_string(), "d".to_string()]);
    candidates.add("b".to_string());
    candidates.add("e".to_string());
    assert_eq!(
        candidates.into_list(),
        rows(&[("b", 443), ("c", 443), ("a", 443), ("d", 443), ("e", 443)])
    );
    assert!(ProxyCandidates::new().into_list().is_empty());
}
