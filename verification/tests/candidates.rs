use edge_scan::candidates::{
    draw_bounds, generate_ipv4_candidates, generate_ipv6_candidates, ipv4_candidates, ipv4_sample,
    ipv6_candidate, ipv6_sample, pick_bounds, read_blocks, search_can_end, take_ipv6_draw,
    Ipv6Draw, Ipv6Search, Ipv6Step, RangeError,
};
use edge_scan::cidr::{CidrError, Family};
use std::collections::HashSet;

fn list(ranges: &[&str]) -> Vec<String> {
    ranges.iter().map(|range| range.to_string()).collect()
}

#[test]
fn a_draw_is_added_to_the_block() {
    assert_eq!(ipv4_sample(0x0a000000, 7), 0x0a000007);
    assert_eq!(ipv4_sample(u32::MAX, 1), 0);
    assert_eq!(ipv4_sample(5, 0x1_0000_0003), 8);
    assert_eq!(ipv4_sample(5, u64::MAX), 4);
}

#[test]
fn given_draws_give_each_address_once_in_order() {
    let blocks = [(100u32, 24u8), (200, 24)];
    let draws = [vec![3u64, 1, 3], vec![1, 2]];
    assert_eq!(ipv4_candidates(&blocks, &draws), vec![103, 101, 201, 202]);
    let joined = [vec![102u64], vec![2, 5]];
    assert_eq!(ipv4_candidates(&blocks, &joined), vec![202, 205]);
    assert_eq!(ipv4_candidates(&[], &[]), Vec::<u32>::new());
}

#[test]
fn the_first_bad_range_is_reported() {
    let ranges = list(&["10.0.0.0/8", "10.0.0.0", "x/y"]);
    let error = RangeError { position: 1, reason: CidrError::Malformed };
    assert_eq!(read_blocks(&ranges), Err(error));
    assert_eq!(generate_ipv4_candidates(&ranges), Err(error));
    assert_eq!(error.message(Family::V4, &ranges), "Invalid IPv4 CIDR: 10.0.0.0");
    assert_eq!(read_blocks(&list(&["10.0.0.0/8"])), Ok(vec![(0x0a000000, 8)]));
}

#[test]
fn drawn_addresses_lie_inside_their_blocks() {
    let ranges = list(&["10.0.0.0/24", "192.168.4.0/22"]);
    let candidates = generate_ipv4_candidates(&ranges).unwrap();
    let different: HashSet<u32> = candidates.iter().copied().collect();
    assert_eq!(different.len(), candidates.len());
    assert!(candidates.len() <= 240);
    assert!(candidates.len() > 60);
    for address in candidates {
        let small = (0x0a000001..=0x0a0000fe).contains(&address);
        let large = (0xc0a80401..=0xc0a807fe).contains(&address);
        assert!(small || large, "{:x}", address);
    }
}

#[test]
fn tiny_blocks_give_their_written_address() {
    let ranges = list(&["10.0.0.9/32", "10.0.0.20/31", "10.0.0.40/30"]);
    let mut candidates = generate_ipv4_candidates(&ranges).unwrap();
    candidates.sort();
    assert_eq!(candidates, vec![0x0a000009, 0x0a000014, 0x0a000029, 0x0a00002a]);
    assert_eq!(generate_ipv4_candidates(&[]), Ok(vec![]));
}

#[test]
fn the_whole_address_space_can_be_a_block() {
    let candidates = generate_ipv4_candidates(&list(&["0.0.0.0/0"])).unwrap();
    assert!(candidates.len() > 100);
    assert!(!candidates.contains(&0));
    assert!(!candidates.contains(&u32::MAX));
}

#[test]
fn random_bits_fill_the_end_of_an_address() {
    let network = 0x2400cb00u128 << 96;
    assert_eq!(ipv6_sample(network, 32, u128::MAX), network | (u128::MAX >> 32));
    assert_eq!(ipv6_sample(network, 32, 0), network);
    assert_eq!(ipv6_sample(network | 5, 32, 9), network | 9);
    assert_eq!(ipv6_sample(7, 0, 9), 9);
    assert_eq!(ipv6_sample(7, 128, 9), 7);
    assert_eq!(ipv6_sample(7, 127, 8), 6);
    assert_eq!(ipv6_candidate("2400:cb00::/32", 1), Ok(network | 1));
    assert_eq!(ipv6_candidate("2400:cb00::", 1), Err(CidrError::Malformed));
}

#[test]
fn draws_are_taken_until_the_list_is_full() {
    let ranges = list(&["2400:cb00::/32", "broken"]);
    let network = 0x2400cb00u128 << 96;
    let mut found: Vec<u128> = Vec::new();
    for i in 0..24u128 {
        let draw = Ipv6Draw { pick: 0, bits: i };
        assert_eq!(take_ipv6_draw(&ranges, &mut found, draw), Ok(false));
        assert_eq!(take_ipv6_draw(&ranges, &mut found, draw), Ok(false));
    }
    assert_eq!(found.len(), 24);
    let broken = Ipv6Draw { pick: 1, bits: 0 };
    let error = RangeError { position: 1, reason: CidrError::Malformed };
    assert_eq!(take_ipv6_draw(&ranges, &mut found, broken), Err(error));
    assert_eq!(found.len(), 24);
    assert_eq!(take_ipv6_draw(&ranges, &mut found, Ipv6Draw { pick: 0, bits: 99 }), Ok(true));
    assert_eq!(found[0], network);
    assert_eq!(found[24], network | 99);
}

#[test]
fn the_wanted_number_of_long_addresses_is_listed() {
    let ranges = list(&["2606:4700::/32", "2803:f800::/32"]);
    let found = generate_ipv6_candidates(&ranges).unwrap();
    let different: HashSet<u128> = found.iter().copied().collect();
    assert_eq!(found.len(), 25);
    assert_eq!(different.len(), 25);
    for address in found {
        let start = (address >> 96) as u32;
        assert!(start == 0x26064700 || start == 0x2803f800);
    }
}

#[test]
fn a_bad_long_range_ends_the_search() {
    let ranges = list(&["1.2.3.4/8"]);
    let error = RangeError { position: 0, reason: CidrError::Address };
    assert_eq!(generate_ipv6_candidates(&ranges), Err(error));
    assert_eq!(error.message(Family::V6, &ranges), "invalid IPv6 address syntax");
}

#[test]
fn leading_bits_come_from_the_block_and_the_others_from_chance() {
    let network = 0xaaaaaaaaaaaaaaaaaaaaaaaaaaaaaaaau128;
    let bits = 0x55555555555555555555555555555555u128;
    for prefix in 0..=128u8 {
        let address = ipv6_sample(network, prefix, bits);
        for i in 0..128u32 {
            let source = if i >= 128 - prefix as u32 { network } else { bits };
            assert_eq!((address >> i) & 1, (source >> i) & 1);
        }
    }
}

#[test]
fn draws_leave_out_the_ends_of_a_block() {
    assert_eq!(draw_bounds(24), Some((1, 255)));
    assert_eq!(draw_bounds(30), Some((1, 3)));
    assert_eq!(draw_bounds(31), None);
    assert_eq!(draw_bounds(32), None);
    assert_eq!(draw_bounds(0), Some((1, 0xffff_ffff)));
}

#[test]
fn every_range_can_be_picked() {
    assert_eq!(pick_bounds(&list(&["a"])), (0, 1));
    assert_eq!(pick_bounds(&list(&["a", "b", "c"])), (0, 3));
}

fn going_on(step: Ipv6Step) -> Ipv6Search {
    match step {
        Ipv6Step::Next(next) => next,
        _ => panic!("the search ended"),
    }
}

#[test]
fn a_search_ends_with_the_last_wanted_address() {
    let ranges = list(&["2400:cb00::/32", "broken"]);
    let network = 0x2400cb00u128 << 96;
    let mut search = Ipv6Search::new();
    for i in 0..24u128 {
        search = going_on(search.step(&ranges, Ipv6Draw { pick: 0, bits: i }));
        search = going_on(search.step(&ranges, Ipv6Draw { pick: 0, bits: i }));
    }
    let found = match search.step(&ranges, Ipv6Draw { pick: 0, bits: 99 }) {
        Ipv6Step::Done(found) => found,
        _ => panic!("the search did not end with a list"),
    };
    let mut wanted: Vec<u128> = (0..24u128).map(|i| network | i).collect();
    wanted.push(network | 99);
    assert_eq!(found, wanted);
}

#[test]
fn a_search_ends_with_a_range_that_is_no_block() {
    let ranges = list(&["2400:cb00::/32", "broken"]);
    let search = going_on(Ipv6Search::new().step(&ranges, Ipv6Draw { pick: 0, bits: 1 }));
    match search.step(&ranges, Ipv6Draw { pick: 1, bits: 1 }) {
        Ipv6Step::Failed(error) => {
            assert_eq!(error, RangeError { position: 1, reason: CidrError::Malformed });
        }
        _ => panic!("a range that is no block was taken"),
    }
}

#[test]
fn a_search_in_too_few_addresses_has_no_end() {
    assert!(!search_can_end(&list(&["::1/128"])));
    assert!(!search_can_end(&list(&["::/125", "1::/125"])));
    assert!(!search_can_end(&list(&["::/124", "::1/124", "::8/125"])));
    assert!(!search_can_end(&[]));
    assert!(search_can_end(&list(&["::/124", "1::/124"])));
    assert!(search_can_end(&list(&["::/123"])));
    assert!(search_can_end(&list(&["::/0"])));
    assert!(search_can_end(&list(&["::1/128", "x"])));
}

#[test]
fn the_last_address_that_is_wanted_is_found() {
    let mut blocks: Vec<String> = (0..24).map(|i| format!("::{:x}/128", i)).collect();
    assert!(!search_can_end(&blocks));
    blocks.push("::18/128".to_string());
    assert!(search_can_end(&blocks));
    let mut found = generate_ipv6_candidates(&blocks).unwrap();
    found.sort();
    assert_eq!(found, (0..25).collect::<Vec<u128>>());
}

#[test]
fn a_block_with_enough_addresses_is_enough() {
    let mut found = generate_ipv6_candidates(&list(&["::/123"])).unwrap();
    found.sort();
    found.dedup();
    assert_eq!(found.len(), 25);
    assert!(found.iter().all(|address| *address < 32));
}

#[test]
fn few_addresses_and_a_bad_range_end_in_the_bad_range() {
    let ranges = list(&["::1/128", "x"]);
    let error = RangeError { position: 1, reason: CidrError::Malformed };
    assert_eq!(generate_ipv6_candidates(&ranges), Err(error));
}

#[test]
fn addresses_come_from_all_over_the_ranges() {
    let ranges: Vec<String> = (0..16).map(|i| format!("{:x}::/16", i + 1)).collect();
    let found = generate_ipv6_candidates(&ranges).unwrap();
    let picked: HashSet<u128> = found.iter().map(|address| address >> 112).collect();
    assert!(picked.len() > 3);
}
