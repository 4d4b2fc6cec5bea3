use edge_scan::clock::{EARLIEST, LATEST};
use edge_scan::report::{encode_badge_label, markdown_report, render_markdown, report_at};
use edge_scan::table::{string_order, Order, ProxyInfo, ProxyTable};

fn proxy(ip: &str, code: &str) -> ProxyInfo {
    ProxyInfo {
        ip: ip.to_string(),
        port: 443,
        isp: "Net".to_string(),
        country_code: code.to_string(),
        city: "City".to_string(),
        region: "Region".to_string(),
    }
}

fn table(list: &[(&str, &str)]) -> ProxyTable {
    let mut table = ProxyTable::new();
    for (ip, code) in list {
        table.add(proxy(ip, code));
    }
    table
}

fn layout(table: &ProxyTable) -> Vec<(String, Vec<String>)> {
    (0..table.country_count())
        .map(|i| {
            let group = table.group(i);
            (group.code.clone(), group.proxies.iter().map(|info| info.ip.clone()).collect())
        })
        .collect()
}

#[test]
fn strings_are_ordered_as_the_standard_library_orders_them() {
    let samples = ["", "A", "AA", "AB", "B", "a", "\u{e9}", "\u{ffff}", "\u{10000}", "DE", "DEU"];
    for a in samples {
        for b in samples {
            let expected = if a < b {
                Order::Before
            } else if a == b {
                Order::Same
            } else {
                Order::After
            };
            assert_eq!(string_order(a, b), expected, "{:?} {:?}", a, b);
        }
    }
}

#[test]
fn countries_are_in_order_and_proxies_as_they_came() {
    let full = table(&[("1", "US"), ("2", "DE"), ("3", "US"), ("4", "AT"), ("5", "DE"), ("6", "ZA")]);
    let expected: Vec<(String, Vec<String>)> = [
        ("AT", vec!["4"]),
        ("DE", vec!["2", "5"]),
        ("US", vec!["1", "3"]),
        ("ZA", vec!["6"]),
    ]
    .iter()
    .map(|(code, ips)| (code.to_string(), ips.iter().map(|ip| ip.to_string()).collect()))
    .collect();
    assert_eq!(layout(&full), expected);
    assert_eq!(full.proxy_count(), 6);
    assert_eq!(full.country_count(), 4);
}

#[test]
fn countries_can_come_in_any_order() {
    let a = table(&[("1", "US"), ("2", "DE"), ("3", "FR")]);
    let b = table(&[("3", "FR"), ("2", "DE"), ("1", "US")]);
    assert_eq!(layout(&a), layout(&b));
    assert_eq!(render_markdown(&a, "x", "y"), render_markdown(&b, "x", "y"));
}

#[test]
fn badge_labels_are_escaped() {
    assert_eq!(
        encode_badge_label("Mon, 01 Jan 2024 03:30 (UTC+3:30)"),
        "Mon%2C%2001%20Jan%202024%2003%3A30%20%28UTC%2B3%3A30%29"
    );
    for label in ["", "a%20b", " :,+()", "(x)"] {
        let chained = label
            .replace(' ', "%20")
            .replace(':', "%3A")
            .replace(',', "%2C")
            .replace('+', "%2B")
            .replace('(', "%28")
            .replace(')', "%29");
        assert_eq!(encode_badge_label(label), chained);
    }
}

const HEAD: &str = r##"<p align="left">
<img src="https://latex.codecogs.com/svg.image?\huge&space;{\color{Golden}\mathrm{PR{\color{black}\O}XY\;IP}" width=220px" </p><br/>

> [!WARNING]
>
> <p><b>Daily Fresh Proxies</b></p>
>
> A curated list of <b>high-quality</b>, fully-tested proxies sourced from reputable ISPs and major global data centers (e.g., Google, Amazon, Cloudflare, Tencent, Hetzner, and others)
>
> <br/>
>
> <p><b>Auto-Updated Daily</b></p>
>
>
> <img src="https://img.shields.io/badge/Last_Update-L%20%28UTC%2B3%3A30%29-966600" />
> <img src="https://img.shields.io/badge/Next_Update-N%20%28UTC%2B3%3A30%29-966600" />
> <img src="https://img.shields.io/badge/Active_Proxies-3-966600" />
> <img src="https://img.shields.io/badge/Countries-2-966600" />
>
> <br><br/>

"##;

const SECTIONS: &str = r##"## 🇳🇴 Norway (2 proxies)
<details>
<summary>Click to expand</summary>

|   IP   |   Port   |   ISP   |   Location   |
|:-------|:--------:|:--------|:------------:|
| <pre><code>1.1.1.1</code></pre> | 443 | Net | Region, City |
| <pre><code>2.2.2.2</code></pre> | 443 | Net | Region, City |

</details>

---

## 🇽🇽 XX (1 proxies)
<details>
<summary>Click to expand</summary>

|   IP   |   Port   |   ISP   |   Location   |
|:-------|:--------:|:--------|:------------:|
| <pre><code>3.3.3.3</code></pre> | 443 | Net | Region, City |

</details>

---

"##;

#[test]
fn the_report_lists_every_proxy() {
    let full = table(&[("3.3.3.3", "XX"), ("1.1.1.1", "NO"), ("2.2.2.2", "NO")]);
    assert_eq!(render_markdown(&full, "L", "N"), format!("{}{}", HEAD, SECTIONS));
}

#[test]
fn a_report_needs_a_next_day() {
    let empty = ProxyTable::new();
    let text = report_at(&empty, 1704067200).unwrap();
    assert_eq!(text, render_markdown(&empty, "Mon, 01 Jan 2024 03:30", "Tue, 02 Jan 2024 03:30"));
    assert!(text.contains("Last_Update-Mon%2C%2001%20Jan%202024%2003%3A30%20%28UTC%2B3%3A30%29-"));
    assert!(text.contains("Active_Proxies-0-"));
    assert!(report_at(&empty, EARLIEST).is_some());
    assert!(report_at(&empty, LATEST - 86400).is_some());
    assert!(report_at(&empty, LATEST - 86399).is_none());
    assert!(report_at(&empty, EARLIEST - 1).is_none());
    assert!(markdown_report(&empty).is_some());
}

#[test]
fn every_proxy_of_the_table_is_shown() {
    let full = table(&[("9.9.9.9", "US"), ("8.8.8.8", "DE"), ("7.7.7.7", "US")]);
    let text = render_markdown(&full, "L", "N");
    for ip in ["9.9.9.9", "8.8.8.8", "7.7.7.7"] {
        let row = format!("| <pre><code>{}</code></pre> | 443 | Net | Region, City |", ip);
        assert!(text.contains(&row));
    }
}
