//! The addresses that are drawn from blocks of addresses to be tested or listed.

use std::collections::HashSet;
use vstd::arithmetic::power2::*;
use vstd::bits::*;
use vstd::prelude::*;

use crate::chance::{draw_between, draw_bits, Drawn, DrawnBits};
use crate::cidr::{parse_ipv4_cidr, parse_ipv6_cidr, CidrError, Family};
#[allow(unused_imports)]
use crate::cidr::{cidr_error_text, v4_cidr, v6_cidr};
#[allow(unused_imports)]
use crate::distinct::{
    distinct, extend_distinct, law_distinct, law_extend_distinct, lemma_extend_single,
};
#[allow(unused_imports)]
use crate::text::texts;

verus! {

broadcast use vstd::std_specs::hash::group_hash_axioms;

/// How many addresses are drawn from each block of 32-bit addresses.
pub const IPV4_SAMPLES_PER_RANGE: usize = 120;

/// How many 128-bit addresses are listed.
pub const IPV6_OUTPUT_COUNT: usize = 25;

/// A range of a list that is no block of addresses.
#[derive(Clone, Copy, Debug, PartialEq, Eq, Structural)]
pub struct RangeError {
    /// Where it stands in the list.
    pub position: usize,
    /// What is wrong with it.
    pub reason: CidrError,
}

impl RangeError {
    /// What the program says of the range.
    pub fn message(&self, family: Family, ranges: &[String]) -> (text: String)
        requires
            self.position < ranges@.len(),
        ensures
            text@ == cidr_error_text(self.reason, family, ranges@[self.position as int]@),
    {
        self.reason.message(family, ranges[self.position].as_str())
    }
}

/// How many addresses a block with this prefix length has.
pub open spec fn host_count(prefix: u8) -> nat {
    pow2((32 - prefix) as nat)
}

/// Whether `draw` may be added to the address of a block: any number that gives
/// neither the block's first address nor its last, or zero in a block of one or
/// two addresses.
pub open spec fn draw_fits(prefix: u8, draw: u64) -> bool {
    if host_count(prefix) > 2 {
        1 <= draw < host_count(prefix) - 1
    } else {
        draw == 0
    }
}

/// Whether `draw` was drawn at random from all the numbers that may be added to the
/// address of a block; nothing is drawn from a block of one or two addresses.
pub open spec fn was_drawn(prefix: u8, draw: u64) -> bool {
    if host_count(prefix) > 2 {
        exists|drawn: Drawn|
            #[trigger] drawn.value() == draw && drawn.between() == (
                1u64,
                (host_count(prefix) - 1) as u64,
            )
    } else {
        draw == 0
    }
}

/// The address that a draw gives: the block's address and the draw added up,
/// without the carry out of the highest bit.
pub open spec fn v4_sample(network: u32, draw: u64) -> u32 {
    ((network + draw) % 0x1_0000_0000) as u32
}

/// The addresses that draws from one block give.
pub open spec fn block_samples(network: u32, draws: Seq<u64>) -> Seq<u32> {
    draws.map_values(|draw: u64| v4_sample(network, draw))
}

/// The addresses that draws from a list of blocks give, block after block.
pub open spec fn v4_samples(blocks: Seq<(u32, u8)>, draws: Seq<Seq<u64>>) -> Seq<u32>
    decreases blocks.len(),
{
    if blocks.len() == 0 {
        Seq::empty()
    } else {
        v4_samples(blocks.drop_last(), draws.drop_last()) + block_samples(
            blocks.last().0,
            draws.last(),
        )
    }
}

/// The blocks that a list of ranges writes, or the first range that is none.
pub open spec fn v4_blocks(ranges: Seq<Seq<char>>) -> Result<Seq<(u32, u8)>, RangeError>
    decreases ranges.len(),
{
    if ranges.len() == 0 {
        Ok(Seq::empty())
    } else {
        match v4_blocks(ranges.drop_last()) {
            Err(error) => Err(error),
            Ok(front) => match v4_cidr(ranges.last()) {
                Ok(block) => Ok(front.push(block)),
                Err(reason) => Err(
                    RangeError { position: (ranges.len() - 1) as usize, reason },
                ),
            },
        }
    }
}

/// Whether the draws are as many as are wanted from each block, were drawn at random,
/// and fit it.
pub open spec fn draws_fit(blocks: Seq<(u32, u8)>, draws: Seq<Seq<u64>>) -> bool {
    &&& draws.len() == blocks.len()
    &&& forall|i: int|
        0 <= i < draws.len() ==> (#[trigger] draws[i]).len() == IPV4_SAMPLES_PER_RANGE
    &&& forall|i: int, k: int|
        0 <= i < draws.len() && 0 <= k < draws[i].len() ==> draw_fits(
            blocks[i].1,
            #[trigger] draws[i][k],
        ) && was_drawn(blocks[i].1, draws[i][k])
}

/// Whether the addresses are what some fitting draws from the blocks give.
pub open spec fn v4_drawn(blocks: Seq<(u32, u8)>, candidates: Seq<u32>) -> bool {
    exists|draws: Seq<Seq<u64>>| #[trigger]
        draws_fit(blocks, draws) && candidates == distinct(v4_samples(blocks, draws))
}

/// The draws in a list of buffers.
pub open spec fn draw_lists(draws: Seq<Vec<u64>>) -> Seq<Seq<u64>> {
    draws.map_values(|list: Vec<u64>| list@)
}

/// A list that was read in part with an error was read with that error.
proof fn lemma_blocks_stop(ranges: Seq<Seq<char>>, k: int)
    requires
        0 <= k <= ranges.len(),
        v4_blocks(ranges.take(k)) is Err,
    ensures
        v4_blocks(ranges) == v4_blocks(ranges.take(k)),
    decreases ranges.len(),
{
    if k == ranges.len() {
        assert(ranges.take(k) =~= ranges);
    } else {
        assert(ranges.drop_last().take(k) =~= ranges.take(k));
        lemma_blocks_stop(ranges.drop_last(), k);
    }
}

/// Reads a list of blocks of 32-bit addresses.
pub fn read_blocks(ranges: &[String]) -> (result: Result<Vec<(u32, u8)>, RangeError>)
    ensures
        match result {
            Ok(blocks) => v4_blocks(texts(ranges@)) == Ok::<Seq<(u32, u8)>, RangeError>(blocks@),
            Err(error) => v4_blocks(texts(ranges@)) == Err::<Seq<(u32, u8)>, RangeError>(error),
        },
        result matches Ok(blocks) ==> forall|i: int|
            0 <= i < blocks@.len() ==> (#[trigger] blocks@[i]).1 <= 32,
        result matches Err(error) ==> error.position < ranges@.len(),
{
    let mut blocks: Vec<(u32, u8)> = Vec::new();
    let ghost all = texts(ranges@);
    for i in 0..ranges.len()
        invariant
            all == texts(ranges@),
            v4_blocks(all.take(i as int)) == Ok::<Seq<(u32, u8)>, RangeError>(blocks@),
            forall|k: int| 0 <= k < blocks@.len() ==> (#[trigger] blocks@[k]).1 <= 32,
    {
        assert(all.take(i + 1).drop_last() =~= all.take(i as int));
        assert(all.take(i + 1).last() == ranges@[i as int]@);
        match parse_ipv4_cidr(ranges[i].as_str()) {
            Ok(block) => {
                blocks.push(block);
            },
            Err(reason) => {
                proof {
                    lemma_blocks_stop(all, i + 1);
                }
                return Err(RangeError { position: i, reason });
            },
        }
    }
    assert(all.take(all.len() as int) =~= all);
    Ok(blocks)
}

/// The address that a draw from a block gives.
pub fn ipv4_sample(network: u32, draw: u64) -> (address: u32)
    ensures
        address == v4_sample(network, draw),
{
    ((network as u64 + draw % 0x1_0000_0000) % 0x1_0000_0000) as u32
}

/// The different addresses that draws from a list of blocks give.
pub fn ipv4_candidates(blocks: &[(u32, u8)], draws: &[Vec<u64>]) -> (candidates: Vec<u32>)
    requires
        blocks@.len() == draws@.len(),
    ensures
        candidates@ == distinct(v4_samples(blocks@, draw_lists(draws@))),
{
    let mut candidates: Vec<u32> = Vec::new();
    let mut seen: HashSet<u32> = HashSet::new();
    let ghost lists = draw_lists(draws@);
    let ghost mut drawn: Seq<u32> = Seq::empty();
    for i in 0..blocks.len()
        invariant
            blocks@.len() == draws@.len(),
            lists == draw_lists(draws@),
            drawn =~= v4_samples(blocks@.take(i as int), lists.take(i as int)),
            candidates@ == distinct(drawn),
            forall|x: u32| seen@.contains(x) <==> candidates@.contains(x),
    {
        let network: u32 = blocks[i].0;
        let list: &Vec<u64> = &draws[i];
        let ghost before = drawn;
        let ghost here = block_samples(network, list@);
        for k in 0..list.len()
            invariant
                here == block_samples(network, list@),
                drawn =~= before + here.take(k as int),
                candidates@ == distinct(drawn),
                forall|x: u32| seen@.contains(x) <==> candidates@.contains(x),
        {
            let address: u32 = ipv4_sample(network, list[k]);
            let ghost old_candidates = candidates@;
            proof {
                let next = drawn.push(address);
                assert(next.drop_last() =~= drawn);
                drawn = next;
            }
            if seen.insert(address) {
                candidates.push(address);
                assert forall|x: u32| seen@.contains(x) <==> candidates@.contains(x) by {
                    assert(candidates@[old_candidates.len() as int] == address);
                    if old_candidates.contains(x) {
                        let m = choose|m: int|
                            0 <= m < old_candidates.len() && old_candidates[m] == x;
                        assert(candidates@[m] == x);
                    }
                }
            }
        }
        assert(here.take(list@.len() as int) =~= here);
        assert(blocks@.take(i + 1).drop_last() =~= blocks@.take(i as int));
        assert(lists.take(i + 1).drop_last() =~= lists.take(i as int));
        assert(lists.take(i + 1).last() == list@);
        assert(blocks@.take(i + 1).last().0 == network);
    }
    assert(blocks@.take(blocks@.len() as int) =~= blocks@);
    assert(lists.take(blocks@.len() as int) =~= lists);
    candidates
}

/// Between which numbers the draws from a block lie: from the first up to, but not
/// with, the second. Nothing is drawn from a block of one or two addresses.
pub fn draw_bounds(prefix: u8) -> (bounds: Option<(u64, u64)>)
    requires
        prefix <= 32,
    ensures
        match bounds {
            Some((low, high)) => {
                &&& host_count(prefix) > 2
                &&& low == 1
                &&& high == host_count(prefix) - 1
            },
            None => host_count(prefix) <= 2,
        },
{
    let host_bits: u64 = 32 - prefix as u64;
    let count: u64 = 1u64 << host_bits;
    proof {
        lemma_u64_pow2_no_overflow(host_bits as nat);
        lemma_u64_shl_is_mul(1, host_bits);
    }
    if count > 2 {
        Some((1, count - 1))
    } else {
        None
    }
}

/// Draws a number that fits a block, unless nothing is drawn from it.
fn draw_offset(prefix: u8) -> (drawn: Option<Drawn>)
    requires
        prefix <= 32,
    ensures
        match drawn {
            Some(drawn) => {
                &&& host_count(prefix) > 2
                &&& drawn.between() == (1u64, (host_count(prefix) - 1) as u64)
                &&& draw_fits(prefix, drawn.value())
                &&& was_drawn(prefix, drawn.value())
            },
            None => host_count(prefix) <= 2,
        },
{
    match draw_bounds(prefix) {
        Some((low, high)) => Some(draw_between(low, high)),
        None => None,
    }
}

/// Draws numbers that fit a block.
fn draw_offsets(prefix: u8) -> (draws: Vec<u64>)
    requires
        prefix <= 32,
    ensures
        draws@.len() == IPV4_SAMPLES_PER_RANGE,
        forall|k: int|
            0 <= k < draws@.len() ==> draw_fits(prefix, #[trigger] draws@[k]) && was_drawn(
                prefix,
                draws@[k],
            ),
{
    let mut draws: Vec<u64> = Vec::new();
    for k in 0..IPV4_SAMPLES_PER_RANGE
        invariant
            prefix <= 32,
            draws@.len() == k,
            forall|m: int|
                0 <= m < draws@.len() ==> draw_fits(prefix, #[trigger] draws@[m]) && was_drawn(
                    prefix,
                    draws@[m],
                ),
    {
        let draw: u64 = match draw_offset(prefix) {
            Some(drawn) => drawn.number(),
            None => 0,
        };
        draws.push(draw);
    }
    draws
}

/// Draws addresses from every range: the different addresses that as many fitting
/// draws as are wanted from each give, or the first range that is no block.
pub fn generate_ipv4_candidates(ranges: &[String]) -> (result: Result<Vec<u32>, RangeError>)
    ensures
        match result {
            Ok(candidates) => v4_blocks(texts(ranges@)) matches Ok(blocks) && v4_drawn(
                blocks,
                candidates@,
            ),
            Err(error) => v4_blocks(texts(ranges@)) == Err::<Seq<(u32, u8)>, RangeError>(error)
                && error.position < ranges@.len(),
        },
{
    let blocks: Vec<(u32, u8)> = match read_blocks(ranges) {
        Ok(blocks) => blocks,
        Err(error) => {
            return Err(error);
        },
    };
    let mut draws: Vec<Vec<u64>> = Vec::new();
    for i in 0..blocks.len()
        invariant
            forall|k: int| 0 <= k < blocks@.len() ==> (#[trigger] blocks@[k]).1 <= 32,
            draws@.len() == i,
            forall|k: int|
                0 <= k < draws@.len() ==> (#[trigger] draws@[k])@.len() == IPV4_SAMPLES_PER_RANGE,
            forall|k: int, m: int|
                0 <= k < draws@.len() && 0 <= m < draws@[k]@.len() ==> draw_fits(
                    blocks@[k].1,
                    #[trigger] draws@[k]@[m],
                ) && was_drawn(blocks@[k].1, draws@[k]@[m]),
    {
        draws.push(draw_offsets(blocks[i].1));
    }
    let ghost lists = draw_lists(draws@);
    assert(draws_fit(blocks@, lists)) by {
        assert forall|k: int| 0 <= k < lists.len() implies (#[trigger] lists[k]).len()
            == IPV4_SAMPLES_PER_RANGE by {
            assert(lists[k] == draws@[k]@);
        }
        assert forall|k: int, m: int| 0 <= k < lists.len() && 0 <= m < lists[k].len() implies draw_fits(
            blocks@[k].1,
            #[trigger] lists[k][m],
        ) && was_drawn(blocks@[k].1, lists[k][m]) by {
            assert(lists[k][m] == draws@[k]@[m]);
        }
    }
    let candidates: Vec<u32> = ipv4_candidates(&blocks, &draws);
    assert(v4_drawn(blocks@, candidates@));
    Ok(candidates)
}

/// Whether `address` is what some draw from some block gives.
spec fn comes_from(blocks: Seq<(u32, u8)>, draws: Seq<Seq<u64>>, address: u32) -> bool {
    exists|i: int, k: int|
        0 <= i < draws.len() && 0 <= k < draws[i].len() && address == v4_sample(
            blocks[i].0,
            #[trigger] draws[i][k],
        )
}

/// Every address that draws give comes from one block and one draw, and every
/// draw gives one.
proof fn lemma_v4_samples(blocks: Seq<(u32, u8)>, draws: Seq<Seq<u64>>)
    requires
        blocks.len() == draws.len(),
        forall|i: int|
            0 <= i < draws.len() ==> (#[trigger] draws[i]).len() == IPV4_SAMPLES_PER_RANGE,
    ensures
        v4_samples(blocks, draws).len() == IPV4_SAMPLES_PER_RANGE * blocks.len(),
        forall|j: int|
            0 <= j < v4_samples(blocks, draws).len() ==> comes_from(
                blocks,
                draws,
                #[trigger] v4_samples(blocks, draws)[j],
            ),
        forall|i: int, k: int|
            0 <= i < draws.len() && 0 <= k < draws[i].len() ==> v4_samples(
                blocks,
                draws,
            ).contains(v4_sample(blocks[i].0, #[trigger] draws[i][k])),
    decreases blocks.len(),
{
    if blocks.len() > 0 {
        let (front, drawn) = (blocks.drop_last(), draws.drop_last());
        let last = blocks.len() - 1;
        let before = v4_samples(front, drawn);
        let here = block_samples(blocks.last().0, draws.last());
        let all = v4_samples(blocks, draws);
        assert forall|i: int| 0 <= i < drawn.len() implies (#[trigger] drawn[i]).len()
            == IPV4_SAMPLES_PER_RANGE by {
            assert(drawn[i] == draws[i]);
        }
        assert(draws[last].len() == IPV4_SAMPLES_PER_RANGE);
        lemma_v4_samples(front, drawn);
        assert(all == before + here);
        assert forall|j: int| 0 <= j < all.len() implies comes_from(
            blocks,
            draws,
            #[trigger] all[j],
        ) by {
            if j < before.len() {
                assert(all[j] == before[j]);
                assert(comes_from(front, drawn, before[j]));
                let (i, k) = choose|i: int, k: int|
                    0 <= i < drawn.len() && 0 <= k < drawn[i].len() && before[j] == v4_sample(
                        front[i].0,
                        #[trigger] drawn[i][k],
                    );
                assert(draws[i][k] == drawn[i][k]);
            } else {
                let k = j - before.len();
                assert(all[j] == v4_sample(blocks[last].0, draws[last][k]));
            }
        }
        assert forall|i: int, k: int| 0 <= i < draws.len() && 0 <= k < draws[i].len() implies all.contains(
            v4_sample(blocks[i].0, #[trigger] draws[i][k]),
        ) by {
            if i < last {
                assert(drawn[i][k] == draws[i][k]);
                assert(before.contains(v4_sample(front[i].0, drawn[i][k])));
                let j = choose|j: int|
                    0 <= j < before.len() && before[j] == v4_sample(front[i].0, drawn[i][k]);
                assert(all[j] == before[j]);
            } else {
                assert(all[before.len() + k] == here[k]);
            }
        }
    }
}

/// Whether `address` is what a fitting draw from the block gives.
pub open spec fn v4_sampled(block: (u32, u8), address: u32) -> bool {
    exists|draw: u64| #[trigger] draw_fits(block.1, draw) && address == v4_sample(block.0, draw)
}

/// No candidate is listed twice; each is what a fitting draw from some block
/// gives; every block has one; and there are at most as many as were drawn.
pub proof fn law_v4_candidates(blocks: Seq<(u32, u8)>, candidates: Seq<u32>)
    requires
        v4_drawn(blocks, candidates),
    ensures
        candidates.no_duplicates(),
        candidates.len() <= IPV4_SAMPLES_PER_RANGE * blocks.len(),
        forall|j: int|
            0 <= j < candidates.len() ==> exists|i: int|
                0 <= i < blocks.len() && v4_sampled(#[trigger] blocks[i], #[trigger] candidates[j]),
        forall|i: int|
            0 <= i < blocks.len() ==> exists|j: int|
                0 <= j < candidates.len() && v4_sampled(
                    #[trigger] blocks[i],
                    #[trigger] candidates[j],
                ),
{
    let draws = choose|draws: Seq<Seq<u64>>| #[trigger]
        draws_fit(blocks, draws) && candidates == distinct(v4_samples(blocks, draws));
    let all = v4_samples(blocks, draws);
    lemma_v4_samples(blocks, draws);
    law_distinct(all);
    assert forall|j: int| 0 <= j < candidates.len() implies exists|i: int|
        0 <= i < blocks.len() && v4_sampled(#[trigger] blocks[i], #[trigger] candidates[j]) by {
        assert(candidates.contains(candidates[j]));
        let m = choose|m: int| 0 <= m < all.len() && all[m] == candidates[j];
        assert(comes_from(blocks, draws, all[m]));
        let (i, k) = choose|i: int, k: int|
            0 <= i < draws.len() && 0 <= k < draws[i].len() && all[m] == v4_sample(
                blocks[i].0,
                #[trigger] draws[i][k],
            );
        assert(draw_fits(blocks[i].1, draws[i][k]));
        assert(v4_sampled(blocks[i], candidates[j]));
    }
    assert forall|i: int| 0 <= i < blocks.len() implies exists|j: int|
        0 <= j < candidates.len() && v4_sampled(#[trigger] blocks[i], #[trigger] candidates[j]) by {
        assert(draws[i].len() == IPV4_SAMPLES_PER_RANGE);
        let address = v4_sample(blocks[i].0, draws[i][0]);
        assert(all.contains(address));
        assert(candidates.contains(address));
        let j = choose|j: int| 0 <= j < candidates.len() && candidates[j] == address;
        assert(draw_fits(blocks[i].1, draws[i][0]));
        assert(v4_sampled(blocks[i], candidates[j]));
    }
}

/// A draw from a block that is written with its first address stays in the block;
/// in a block of more than two addresses it is neither the first nor the last.
pub proof fn law_v4_sample_in_block(network: u32, prefix: u8, draw: u64)
    requires
        prefix <= 32,
        network as int % host_count(prefix) as int == 0,
        draw_fits(prefix, draw),
    ensures
        network <= v4_sample(network, draw) < network + host_count(prefix),
        host_count(prefix) > 2 ==> network < v4_sample(network, draw) < network + host_count(prefix)
            - 1,
{
    let size = host_count(prefix) as int;
    let blocks = pow2(prefix as nat) as int;
    lemma_pow2_pos((32 - prefix) as nat);
    lemma_pow2_adds((32 - prefix) as nat, prefix as nat);
    lemma2_to64();
    assert(size * blocks == 0x1_0000_0000);
    let index = network as int / size;
    vstd::arithmetic::div_mod::lemma_fundamental_div_mod(network as int, size);
    assert(network == size * index);
    assert(index < blocks) by (nonlinear_arith)
        requires
            size > 0,
            size * index < size * blocks,
    ;
    assert(size * index + size <= size * blocks) by (nonlinear_arith)
        requires
            size > 0,
            index + 1 <= blocks,
    ;
}

/// The bits that a 128-bit block's members share.
pub open spec fn v6_mask(prefix: u8) -> u128 {
    if prefix == 0 {
        0
    } else {
        u128::MAX << ((128 - prefix) as u32)
    }
}

/// The address that random bits give in a block: the leading bits of the block's
/// address, and the random bits after them.
pub open spec fn v6_sample(network: u128, prefix: u8, bits: u128) -> u128 {
    (network & v6_mask(prefix)) | (bits & !v6_mask(prefix))
}

/// The address that random bits give in a block.
pub fn ipv6_sample(network: u128, prefix: u8, bits: u128) -> (address: u128)
    requires
        prefix <= 128,
    ensures
        address == v6_sample(network, prefix, bits),
{
    let mask: u128 = if prefix == 0 {
        0
    } else {
        u128::MAX << (128 - prefix as u32)
    };
    (network & mask) | (bits & !mask)
}

/// Bit `i` of a number, the lowest being bit zero.
pub open spec fn bit(value: u128, i: u32) -> bool {
    (value >> i) & 1 == 1
}

/// The leading bits of the address, as many as the prefix length says, are those
/// of the block; the others are the random ones.
pub proof fn law_v6_sample_bits(network: u128, prefix: u8, bits: u128, i: u32)
    requires
        prefix <= 128,
        i < 128,
    ensures
        bit(v6_sample(network, prefix, bits), i) == if i >= 128 - prefix {
            bit(network, i)
        } else {
            bit(bits, i)
        },
{
    if prefix == 0 {
        assert((network & 0) | (bits & !0u128) == bits) by (bit_vector);
    } else {
        let gap = (128 - prefix) as u32;
        assert((((network & (u128::MAX << gap)) | (bits & !(u128::MAX << gap))) >> i) & 1 == (if i
            >= gap {
            (network >> i) & 1
        } else {
            (bits >> i) & 1
        })) by (bit_vector)
            requires
                gap < 128,
                i < 128,
        ;
    }
}

/// The address lies in the block: divided by the block's size, it gives what the
/// block's address gives.
pub proof fn law_v6_sample_in_block(network: u128, prefix: u8, bits: u128)
    requires
        prefix <= 128,
    ensures
        v6_sample(network, prefix, bits) as nat / pow2((128 - prefix) as nat) == network as nat
            / pow2((128 - prefix) as nat),
{
    let address = v6_sample(network, prefix, bits);
    if prefix == 0 {
        lemma2_to64();
        lemma_pow2_adds(64, 64);
        assert(pow2(128) == 0x1_0000_0000_0000_0000_0000_0000_0000_0000);
        vstd::arithmetic::div_mod::lemma_basic_div(address as int, pow2(128) as int);
        vstd::arithmetic::div_mod::lemma_basic_div(network as int, pow2(128) as int);
    } else {
        let gap = (128 - prefix) as u32;
        let wide = gap as u128;
        assert(((network & (u128::MAX << gap)) | (bits & !(u128::MAX << gap))) >> wide == network
            >> wide) by (bit_vector)
            requires
                gap < 128,
                wide == gap as u128,
        ;
        lemma_u128_shr_is_div(address, wide);
        lemma_u128_shr_is_div(network, wide);
    }
}

/// One draw for the list of 128-bit addresses: which range is picked, and the
/// random bits.
#[derive(Clone, Copy, Debug)]
pub struct Ipv6Draw {
    /// The position of the picked range.
    pub pick: usize,
    /// The random bits.
    pub bits: u128,
}

/// Whether the draw picks a range of the list that is a block.
pub open spec fn v6_draw_fits(ranges: Seq<Seq<char>>, draw: Ipv6Draw) -> bool {
    draw.pick < ranges.len() && v6_cidr(ranges[draw.pick as int]) is Ok
}

/// The address that random bits give in the range that `cidr` writes.
pub open spec fn v6_candidate(cidr: Seq<char>, bits: u128) -> Result<u128, CidrError> {
    match v6_cidr(cidr) {
        Ok((network, prefix)) => Ok(v6_sample(network, prefix, bits)),
        Err(reason) => Err(reason),
    }
}

/// The address that a draw gives.
pub open spec fn v6_drawn(ranges: Seq<Seq<char>>, draw: Ipv6Draw) -> u128 {
    v6_candidate(ranges[draw.pick as int], draw.bits)->Ok_0
}

/// The different addresses that draws give.
pub open spec fn v6_candidates(ranges: Seq<Seq<char>>, draws: Seq<Ipv6Draw>) -> Seq<u128> {
    distinct(draws.map_values(|draw: Ipv6Draw| v6_drawn(ranges, draw)))
}

/// Whether the draws pick blocks only, and give fewer addresses than are wanted.
pub open spec fn v6_unfinished(ranges: Seq<Seq<char>>, draws: Seq<Ipv6Draw>) -> bool {
    &&& forall|i: int| 0 <= i < draws.len() ==> v6_draw_fits(ranges, #[trigger] draws[i])
    &&& v6_candidates(ranges, draws).len() < IPV6_OUTPUT_COUNT
}

/// Whether the addresses are what some draws give that stop at the last address
/// that is wanted.
pub open spec fn v6_listed(ranges: Seq<Seq<char>>, candidates: Seq<u128>) -> bool {
    exists|draws: Seq<Ipv6Draw>, last: Ipv6Draw|
        {
            &&& #[trigger] v6_unfinished(ranges, draws)
            &&& #[trigger] v6_draw_fits(ranges, last)
            &&& candidates == v6_candidates(ranges, draws.push(last))
            &&& candidates.len() == IPV6_OUTPUT_COUNT
        }
}

/// Whether every range of the list is a block.
pub open spec fn all_blocks(ranges: Seq<Seq<char>>) -> bool {
    forall|i: int| 0 <= i < ranges.len() ==> v6_cidr(#[trigger] ranges[i]) is Ok
}

/// Whether no range of the list is a block.
pub open spec fn no_blocks(ranges: Seq<Seq<char>>) -> bool {
    forall|i: int| 0 <= i < ranges.len() ==> v6_cidr(#[trigger] ranges[i]) is Err
}

/// Whether `address` lies in a block of the list.
pub open spec fn v6_in_blocks(ranges: Seq<Seq<char>>, address: u128) -> bool {
    exists|draw: Ipv6Draw| #[trigger]
        v6_draw_fits(ranges, draw) && address == v6_drawn(ranges, draw)
}

/// Whether the list consists of different addresses of the blocks.
pub open spec fn v6_distinct_members(ranges: Seq<Seq<char>>, list: Seq<u128>) -> bool {
    &&& list.no_duplicates()
    &&& forall|j: int| 0 <= j < list.len() ==> v6_in_blocks(ranges, #[trigger] list[j])
}

/// Whether every range is a block, and the blocks together have fewer addresses
/// than are wanted.
pub open spec fn v6_too_few(ranges: Seq<Seq<char>>) -> bool {
    &&& all_blocks(ranges)
    &&& forall|list: Seq<u128>| #[trigger]
        v6_distinct_members(ranges, list) ==> list.len() < IPV6_OUTPUT_COUNT
}

/// Whether the error is that of a range of the list.
pub open spec fn v6_range_error(ranges: Seq<Seq<char>>, error: RangeError) -> bool {
    &&& error.position < ranges.len()
    &&& v6_cidr(ranges[error.position as int]) == Err::<(u128, u8), CidrError>(error.reason)
}

/// The address that random bits give in the range that `cidr` writes.
pub fn ipv6_candidate(cidr: &str, bits: u128) -> (result: Result<u128, CidrError>)
    ensures
        result == v6_candidate(cidr@, bits),
        result is Ok <==> v6_cidr(cidr@) is Ok,
{
    match parse_ipv6_cidr(cidr) {
        Ok((network, prefix)) => Ok(ipv6_sample(network, prefix, bits)),
        Err(reason) => Err(reason),
    }
}

/// Adds an address to a list unless it is there.
fn add_distinct(list: &mut Vec<u128>, address: u128)
    ensures
        final(list)@ == extend_distinct(old(list)@, seq![address]),
{
    proof {
        lemma_extend_single(list@, address);
    }
    for i in 0..list.len()
        invariant
            list@ == old(list)@,
            extend_distinct(list@, seq![address]) == if list@.contains(address) {
                list@
            } else {
                list@.push(address)
            },
            forall|k: int| 0 <= k < i ==> list@[k] != address,
    {
        if list[i] == address {
            assert(list@.contains(address));
            return;
        }
    }
    list.push(address);
}

/// Takes in a draw: adds its address to the list unless it is there, and tells
/// whether the list has the wanted number. A range that is no block is an error
/// and leaves the list as it is.
pub fn take_ipv6_draw(ranges: &[String], candidates: &mut Vec<u128>, draw: Ipv6Draw) -> (done: Result<
    bool,
    RangeError,
>)
    requires
        draw.pick < ranges@.len(),
    ensures
        match v6_candidate(ranges@[draw.pick as int]@, draw.bits) {
            Ok(address) => {
                &&& final(candidates)@ == extend_distinct(old(candidates)@, seq![address])
                &&& done == Ok::<bool, RangeError>(
                    final(candidates)@.len() >= IPV6_OUTPUT_COUNT,
                )
            },
            Err(reason) => {
                &&& final(candidates)@ == old(candidates)@
                &&& done == Err::<bool, RangeError>(RangeError { position: draw.pick, reason })
            },
        },
{
    match ipv6_candidate(ranges[draw.pick].as_str(), draw.bits) {
        Ok(address) => {
            add_distinct(candidates, address);
            Ok(candidates.len() >= IPV6_OUTPUT_COUNT)
        },
        Err(reason) => Err(RangeError { position: draw.pick, reason }),
    }
}

/// One more draw adds at most its own address.
proof fn lemma_v6_push(ranges: Seq<Seq<char>>, draws: Seq<Ipv6Draw>, draw: Ipv6Draw)
    ensures
        v6_candidates(ranges, draws.push(draw)) == extend_distinct(
            v6_candidates(ranges, draws),
            seq![v6_drawn(ranges, draw)],
        ),
{
    let before = draws.map_values(|d: Ipv6Draw| v6_drawn(ranges, d));
    let after = draws.push(draw).map_values(|d: Ipv6Draw| v6_drawn(ranges, d));
    let one = seq![v6_drawn(ranges, draw)];
    assert(after =~= before + one);
    law_extend_distinct(before, one);
}

/// A finished list holds the wanted number of addresses, all different, each of
/// them from a range that is a block.
pub proof fn law_v6_candidates(ranges: Seq<Seq<char>>, candidates: Seq<u128>)
    requires
        v6_listed(ranges, candidates),
    ensures
        candidates.len() == IPV6_OUTPUT_COUNT,
        v6_distinct_members(ranges, candidates),
{
    let (draws, last) = choose|draws: Seq<Ipv6Draw>, last: Ipv6Draw|
        {
            &&& #[trigger] v6_unfinished(ranges, draws)
            &&& #[trigger] v6_draw_fits(ranges, last)
            &&& candidates == v6_candidates(ranges, draws.push(last))
            &&& candidates.len() == IPV6_OUTPUT_COUNT
        };
    let all = draws.push(last);
    let given = all.map_values(|draw: Ipv6Draw| v6_drawn(ranges, draw));
    law_distinct(given);
    assert forall|j: int| 0 <= j < candidates.len() implies v6_in_blocks(
        ranges,
        #[trigger] candidates[j],
    ) by {
        assert(candidates.contains(candidates[j]));
        let k = choose|k: int| 0 <= k < given.len() && given[k] == candidates[j];
        if k < draws.len() {
            assert(v6_draw_fits(ranges, draws[k]));
            assert(all[k] == draws[k]);
        }
        assert(v6_draw_fits(ranges, all[k]));
    }
}

/// A search for 128-bit addresses under way: ranges were picked, and too few
/// different addresses came up.
pub struct Ipv6Search {
    found: Vec<u128>,
    count: u64,
    draws: Ghost<Seq<Ipv6Draw>>,
}

/// What follows on a draw.
pub enum Ipv6Step {
    /// The wanted number of addresses was found.
    Done(Vec<u128>),
    /// The search goes on.
    Next(Ipv6Search),
    /// The picked range is no block.
    Failed(RangeError),
    /// There were as many draws as a `u64` counts, and the search is given up.
    GivenUp,
}

impl Ipv6Search {
    /// The draws that were taken in.
    pub closed spec fn history(&self) -> Seq<Ipv6Draw> {
        self.draws@
    }

    /// The draws picked blocks only; what they gave is kept, and is too little; and
    /// they can be counted.
    pub closed spec fn wf(&self, ranges: Seq<Seq<char>>) -> bool {
        &&& self.count == self.draws@.len()
        &&& self.count < u64::MAX
        &&& v6_unfinished(ranges, self.draws@)
        &&& self.found@ == v6_candidates(ranges, self.draws@)
    }

    /// The start of a search, in any list of ranges.
    pub fn new() -> (search: Ipv6Search)
        ensures
            forall|ranges: Seq<Seq<char>>| #[trigger] search.wf(ranges),
            search.history() == Seq::<Ipv6Draw>::empty(),
    {
        let search: Ipv6Search = Ipv6Search {
            found: Vec::new(),
            count: 0,
            draws: Ghost(Seq::empty()),
        };
        assert forall|ranges: Seq<Seq<char>>| #[trigger] search.wf(ranges) by {
            assert(v6_candidates(ranges, search.draws@) =~= Seq::empty());
        }
        search
    }

    /// Takes in a draw. The search ends when the wanted number of addresses is
    /// found, when the picked range is no block, or when there were as many draws
    /// as a `u64` counts.
    pub fn step(self, ranges: &[String], draw: Ipv6Draw) -> (step: Ipv6Step)
        requires
            self.wf(texts(ranges@)),
            draw.pick < ranges@.len(),
        ensures
            ({
                let all = texts(ranges@);
                let history = self.history().push(draw);
                match step {
                    Ipv6Step::Done(list) => {
                        &&& v6_draw_fits(all, draw)
                        &&& list@ == v6_candidates(all, history)
                        &&& list@.len() == IPV6_OUTPUT_COUNT
                        &&& v6_listed(all, list@)
                    },
                    Ipv6Step::Next(next) => {
                        &&& next.wf(all)
                        &&& next.history() == history
                        &&& v6_unfinished(all, history)
                        &&& history.len() < u64::MAX
                    },
                    Ipv6Step::Failed(error) => {
                        &&& error.position == draw.pick
                        &&& v6_range_error(all, error)
                    },
                    Ipv6Step::GivenUp => {
                        &&& v6_unfinished(all, history)
                        &&& history.len() == u64::MAX
                    },
                }
            }),
    {
        let ghost all = texts(ranges@);
        let ghost before = self.draws@;
        let ghost history = before.push(draw);
        let count: u64 = self.count;
        let mut found: Vec<u128> = self.found;
        assert(all[draw.pick as int] == ranges@[draw.pick as int]@);
        match take_ipv6_draw(ranges, &mut found, draw) {
            Err(error) => Ipv6Step::Failed(error),
            Ok(done) => {
                assert(v6_draw_fits(all, draw));
                proof {
                    lemma_v6_push(all, before, draw);
                    lemma_extend_single(v6_candidates(all, before), v6_drawn(all, draw));
                }
                if done {
                    assert(v6_listed(all, found@));
                    Ipv6Step::Done(found)
                } else {
                    assert(v6_unfinished(all, history)) by {
                        assert forall|i: int| 0 <= i < history.len() implies v6_draw_fits(
                            all,
                            #[trigger] history[i],
                        ) by {
                            if i < before.len() {
                                assert(history[i] == before[i]);
                            }
                        }
                    }
                    if count == u64::MAX - 1 {
                        Ipv6Step::GivenUp
                    } else {
                        Ipv6Step::Next(
                            Ipv6Search { found, count: count + 1, draws: Ghost(history) },
                        )
                    }
                }
            },
        }
    }
}

/// A search under way has picked blocks only, has found fewer addresses than are
/// wanted, and has made fewer draws than a `u64` counts.
pub proof fn law_search_unfinished(search: Ipv6Search, ranges: Seq<Seq<char>>)
    requires
        search.wf(ranges),
    ensures
        v6_unfinished(ranges, search.history()),
        search.history().len() < u64::MAX,
{
}

/// A list whose elements are different and all stand in another is no longer than
/// the other.
proof fn lemma_no_longer(list: Seq<u128>, found: Seq<u128>)
    requires
        list.no_duplicates(),
        forall|j: int| 0 <= j < list.len() ==> found.contains(#[trigger] list[j]),
    ensures
        list.len() <= found.len(),
{
    list.unique_seq_to_set();
    found.lemma_cardinality_of_set();
    vstd::seq_lib::seq_to_set_is_finite(found);
    assert(list.to_set().subset_of(found.to_set()));
    vstd::set_lib::lemma_len_subset(list.to_set(), found.to_set());
}

/// In a block of at least as many addresses as are wanted, different low numbers
/// give different addresses.
proof fn lemma_low_bits_differ(network: u128, prefix: u8, a: u128, b: u128)
    requires
        prefix <= 123,
        a < 32,
        b < 32,
        v6_sample(network, prefix, a) == v6_sample(network, prefix, b),
    ensures
        a == b,
{
    if prefix == 0 {
        assert((network & 0) | (a & !0u128) == a) by (bit_vector);
        assert((network & 0) | (b & !0u128) == b) by (bit_vector);
    } else {
        let gap = (128 - prefix) as u32;
        assert(a == b) by (bit_vector)
            requires
                5 <= gap < 128,
                a < 32,
                b < 32,
                ((network & (u128::MAX << gap)) | (a & !(u128::MAX << gap))) == ((network & (
                u128::MAX << gap)) | (b & !(u128::MAX << gap))),
        ;
    }
}

/// In a smaller block a low number gives every address.
proof fn lemma_low_bits_suffice(network: u128, prefix: u8, bits: u128) -> (low: u128)
    requires
        123 < prefix <= 128,
    ensures
        low < 16,
        v6_sample(network, prefix, low) == v6_sample(network, prefix, bits),
{
    let gap = (128 - prefix) as u32;
    let low = bits & !(u128::MAX << gap);
    assert(low < 16 && (network & (u128::MAX << gap)) | (low & !(u128::MAX << gap)) == (network & (
    u128::MAX << gap)) | (bits & !(u128::MAX << gap))) by (bit_vector)
        requires
            gap <= 4,
            low == bits & !(u128::MAX << gap),
    ;
    low
}

/// Where the first low numbers gave addresses of a list that is too short, the list
/// has every address of the block.
proof fn lemma_block_covered(found: Seq<u128>, network: u128, prefix: u8, bits: u128)
    requires
        prefix <= 128,
        found.len() < IPV6_OUTPUT_COUNT,
        forall|k: u128|
            k < IPV6_OUTPUT_COUNT ==> found.contains(#[trigger] v6_sample(network, prefix, k)),
    ensures
        found.contains(v6_sample(network, prefix, bits)),
{
    if prefix <= 123 {
        let list = Seq::new(
            IPV6_OUTPUT_COUNT as nat,
            |k: int| v6_sample(network, prefix, k as u128),
        );
        assert forall|i: int, j: int| 0 <= i < list.len() && 0 <= j < list.len() && i != j implies list[i]
            != list[j] by {
            if list[i] == list[j] {
                lemma_low_bits_differ(network, prefix, i as u128, j as u128);
            }
        }
        lemma_no_longer(list, found);
    } else {
        let low = lemma_low_bits_suffice(network, prefix, bits);
        assert(found.contains(v6_sample(network, prefix, low)));
    }
}

/// Whether the list has every address of a block.
spec fn holds_block(found: Seq<u128>, block: (u128, u8)) -> bool {
    forall|bits: u128| found.contains(#[trigger] v6_sample(block.0, block.1, bits))
}

/// Lists 128-bit addresses range after range, as many from each as are wanted in
/// all, until the wanted number of different ones is found. A shorter list has all
/// that there are.
fn first_ipv6_addresses(ranges: &[String]) -> (result: Result<Vec<u128>, RangeError>)
    ensures
        match result {
            Ok(list) => if list@.len() == IPV6_OUTPUT_COUNT {
                v6_listed(texts(ranges@), list@) && !v6_too_few(texts(ranges@))
            } else {
                v6_too_few(texts(ranges@))
            },
            Err(error) => v6_range_error(texts(ranges@), error),
        },
{
    let mut found: Vec<u128> = Vec::new();
    let ghost all = texts(ranges@);
    let ghost mut draws: Seq<Ipv6Draw> = Seq::empty();
    assert(v6_candidates(all, draws) =~= Seq::empty());
    for i in 0..ranges.len()
        invariant
            all == texts(ranges@),
            v6_unfinished(all, draws),
            found@ == v6_candidates(all, draws),
            forall|m: int| 0 <= m < i ==> v6_cidr(#[trigger] all[m]) is Ok,
            forall|m: int| 0 <= m < i ==> holds_block(found@, v6_cidr(#[trigger] all[m])->Ok_0),
    {
        let ghost start = found@;
        let ghost block = v6_cidr(all[i as int])->Ok_0;
        for k in 0..IPV6_OUTPUT_COUNT
            invariant
                i < ranges@.len(),
                all == texts(ranges@),
                block == v6_cidr(all[i as int])->Ok_0,
                v6_unfinished(all, draws),
                found@ == v6_candidates(all, draws),
                k > 0 ==> v6_cidr(all[i as int]) is Ok,
                forall|x: u128| start.contains(x) ==> #[trigger] found@.contains(x),
                forall|m: u128|
                    m < k ==> found@.contains(#[trigger] v6_sample(block.0, block.1, m)),
        {
            let draw: Ipv6Draw = Ipv6Draw { pick: i, bits: k as u128 };
            let ghost before = found@;
            let ghost address = v6_drawn(all, draw);
            assert(all[i as int] == ranges@[i as int]@);
            match take_ipv6_draw(ranges, &mut found, draw) {
                Err(error) => {
                    return Err(error);
                },
                Ok(done) => {
                    assert(v6_draw_fits(all, draw));
                    proof {
                        lemma_v6_push(all, draws, draw);
                        lemma_extend_single(before, address);
                    }
                    if done {
                        proof {
                            assert(v6_listed(all, found@));
                            law_v6_candidates(all, found@);
                        }
                        return Ok(found);
                    }
                    proof {
                        assert forall|x: u128| before.contains(x) || x == address implies #[trigger] found@.contains(
                            x,
                        ) by {
                            if before.contains(x) {
                                let m = choose|m: int| 0 <= m < before.len() && before[m] == x;
                                assert(found@[m] == x);
                            } else {
                                assert(found@[before.len() as int] == x);
                            }
                        }
                        draws = draws.push(draw);
                    }
                },
            }
        }
        proof {
            assert(block.1 <= 128);
            assert forall|bits: u128| found@.contains(
                #[trigger] v6_sample(block.0, block.1, bits),
            ) by {
                lemma_block_covered(found@, block.0, block.1, bits);
            }
            assert forall|m: int| 0 <= m < i + 1 implies holds_block(
                found@,
                v6_cidr(#[trigger] all[m])->Ok_0,
            ) by {
                if m < i {
                    assert(holds_block(start, v6_cidr(all[m])->Ok_0));
                }
            }
        }
    }
    proof {
        assert forall|list: Seq<u128>| #[trigger] v6_distinct_members(all, list) implies list.len()
            < IPV6_OUTPUT_COUNT by {
            assert forall|j: int| 0 <= j < list.len() implies found@.contains(
                #[trigger] list[j],
            ) by {
                assert(v6_in_blocks(all, list[j]));
                let draw = choose|draw: Ipv6Draw| #[trigger]
                    v6_draw_fits(all, draw) && list[j] == v6_drawn(all, draw);
                assert(holds_block(found@, v6_cidr(all[draw.pick as int])->Ok_0));
            }
            lemma_no_longer(list, found@);
        }
    }
    Ok(found)
}

/// Whether a search can end: whether some range is no block, or the blocks together
/// have as many addresses as are wanted.
pub fn search_can_end(ranges: &[String]) -> (can_end: bool)
    ensures
        can_end == !v6_too_few(texts(ranges@)),
{
    match first_ipv6_addresses(ranges) {
        Ok(list) => list.len() == IPV6_OUTPUT_COUNT,
        Err(_) => true,
    }
}

/// Where every range is a block, and the blocks together have too few addresses, no
/// draws end a search: none give a list, and none pick a range that is no block.
pub proof fn law_search_without_end(
    ranges: Seq<Seq<char>>,
    candidates: Seq<u128>,
    error: RangeError,
)
    requires
        v6_too_few(ranges),
    ensures
        !v6_listed(ranges, candidates),
        !v6_range_error(ranges, error),
{
    if v6_listed(ranges, candidates) {
        law_v6_candidates(ranges, candidates);
    }
}

/// Between which numbers the position of a picked range lies: from the first up to,
/// but not with, the second.
pub fn pick_bounds(ranges: &[String]) -> (bounds: (u64, u64))
    requires
        ranges@.len() > 0,
    ensures
        bounds.0 == 0,
        bounds.1 == ranges@.len(),
        bounds.1 <= usize::MAX,
{
    (0, ranges.len() as u64)
}

/// Picks a range at random.
fn pick_range(ranges: &[String]) -> (drawn: Drawn)
    requires
        ranges@.len() > 0,
    ensures
        drawn.between() == (0u64, ranges@.len() as u64),
        drawn.value() < ranges@.len(),
        drawn.value() <= usize::MAX,
{
    let (low, high) = pick_bounds(ranges);
    draw_between(low, high)
}

/// Whether a draw was made at random: a number picked between zero and the number of
/// ranges, and bits.
pub open spec fn made_at_random(count: nat, draw: Ipv6Draw) -> bool {
    &&& exists|drawn: Drawn|
        #[trigger] drawn.value() == draw.pick && drawn.between() == (0u64, count as u64)
    &&& exists|drawn: DrawnBits| #[trigger] drawn.value() == draw.bits
}

/// Whether draws were made at random.
pub open spec fn all_at_random(count: nat, draws: Seq<Ipv6Draw>) -> bool {
    forall|i: int| 0 <= i < draws.len() ==> made_at_random(count, #[trigger] draws[i])
}

/// Whether the addresses are what draws gave that were made at random, or as many
/// such draws as a `u64` counts gave too few.
pub open spec fn v6_found_at_random(ranges: Seq<Seq<char>>, candidates: Seq<u128>) -> bool {
    exists|draws: Seq<Ipv6Draw>| #[trigger]
        all_at_random(ranges.len(), draws) && {
            ||| candidates == v6_candidates(ranges, draws)
            ||| v6_unfinished(ranges, draws) && draws.len() == u64::MAX
        }
}

/// Draws 128-bit addresses from ranges picked at random until the wanted number of
/// different ones is found. A picked range that is no block ends the search. A
/// search that is given up, after as many draws as a `u64` counts, ends in what the
/// ranges give in order.
pub fn generate_ipv6_candidates(ranges: &[String]) -> (result: Result<Vec<u128>, RangeError>)
    requires
        ranges@.len() > 0,
        !v6_too_few(texts(ranges@)),
    ensures
        match result {
            Ok(candidates) => v6_listed(texts(ranges@), candidates@) && v6_found_at_random(
                texts(ranges@),
                candidates@,
            ),
            Err(error) => v6_range_error(texts(ranges@), error),
        },
        all_blocks(texts(ranges@)) ==> result is Ok,
        no_blocks(texts(ranges@)) ==> result is Err,
{
    let ghost all = texts(ranges@);
    let mut search: Ipv6Search = Ipv6Search::new();
    assert(search.wf(all));
    loop
        invariant
            ranges@.len() > 0,
            all == texts(ranges@),
            !v6_too_few(all),
            search.wf(all),
            all_at_random(all.len(), search.history()),
        decreases u64::MAX - search.history().len(),
    {
        let picked: Drawn = pick_range(ranges);
        let bits: DrawnBits = draw_bits();
        let draw: Ipv6Draw = Ipv6Draw { pick: picked.number() as usize, bits: bits.bits() };
        let ghost history = search.history().push(draw);
        assert(all_at_random(all.len(), history)) by {
            assert(picked.value() == draw.pick && bits.value() == draw.bits);
            assert forall|i: int| 0 <= i < history.len() implies made_at_random(
                all.len(),
                #[trigger] history[i],
            ) by {
                if i < history.len() - 1 {
                    assert(history[i] == search.history()[i]);
                }
            }
        }
        match search.step(ranges, draw) {
            Ipv6Step::Done(list) => {
                assert(v6_found_at_random(all, list@));
                return Ok(list);
            },
            Ipv6Step::Next(next) => {
                search = next;
            },
            Ipv6Step::Failed(error) => {
                return Err(error);
            },
            Ipv6Step::GivenUp => {
                let first: Result<Vec<u128>, RangeError> = first_ipv6_addresses(ranges);
                assert(first matches Ok(list) ==> v6_found_at_random(all, list@));
                return first;
            },
        }
    }
}

/// A list of ranges is a list of as many blocks, range after range, if every range
/// is a block; otherwise the first that is none is told, with what is wrong with it.
pub proof fn law_block_for_each_range(ranges: Seq<Seq<char>>)
    requires
        ranges.len() <= usize::MAX,
    ensures
        match v4_blocks(ranges) {
            Ok(blocks) => {
                &&& blocks.len() == ranges.len()
                &&& forall|i: int|
                    0 <= i < ranges.len() ==> v4_cidr(#[trigger] ranges[i]) == Ok::<
                        (u32, u8),
                        CidrError,
                    >(blocks[i])
            },
            Err(error) => {
                &&& error.position < ranges.len()
                &&& v4_cidr(ranges[error.position as int]) == Err::<(u32, u8), CidrError>(
                    error.reason,
                )
                &&& forall|i: int|
                    0 <= i < error.position ==> v4_cidr(#[trigger] ranges[i]) is Ok
            },
        },
    decreases ranges.len(),
{
    if ranges.len() > 0 {
        let front = ranges.drop_last();
        law_block_for_each_range(front);
        assert(forall|i: int| 0 <= i < front.len() ==> front[i] == #[trigger] ranges[i]);
        match v4_blocks(front) {
            Ok(before) => {
                if let Ok(blocks) = v4_blocks(ranges) {
                    assert forall|i: int| 0 <= i < ranges.len() implies v4_cidr(
                        #[trigger] ranges[i],
                    ) == Ok::<(u32, u8), CidrError>(blocks[i]) by {
                        if i < front.len() {
                            assert(v4_cidr(front[i]) == Ok::<(u32, u8), CidrError>(before[i]));
                        }
                    }
                } else {
                    assert forall|i: int| 0 <= i < front.len() implies v4_cidr(
                        #[trigger] ranges[i],
                    ) is Ok by {
                        assert(v4_cidr(front[i]) is Ok);
                    }
                }
            },
            Err(error) => {
                assert forall|i: int| 0 <= i < error.position implies v4_cidr(
                    #[trigger] ranges[i],
                ) is Ok by {
                    assert(v4_cidr(front[i]) is Ok);
                }
            },
        }
    }
}

/// Whether an address lies in a block behind the address that the block is written
/// with, and is not the last of as many as the block has; in a block of one or two
/// addresses, whether it is the written one.
pub open spec fn v4_lies_in(block: (u32, u8), address: u32) -> bool {
    let size = pow2((32 - block.1) as nat) as int;
    let distance = (address - block.0) % 0x1_0000_0000;
    if size > 2 {
        1 <= distance <= size - 2
    } else {
        distance == 0
    }
}

/// The addresses that can be drawn from a block are those that lie in it, and no
/// others.
pub proof fn law_v4_all_can_be_drawn(block: (u32, u8), address: u32)
    requires
        block.1 <= 32,
    ensures
        v4_sampled(block, address) <==> v4_lies_in(block, address),
{
    let size = pow2((32 - block.1) as nat) as int;
    let distance = (address - block.0) % 0x1_0000_0000;
    lemma2_to64();
    if block.1 > 0 {
        lemma_pow2_strictly_increases((32 - block.1) as nat, 32);
    }
    assert(size <= 0x1_0000_0000);
    if v4_lies_in(block, address) {
        let draw = distance as u64;
        assert(draw_fits(block.1, draw));
        assert(address == v4_sample(block.0, draw));
    }
    if v4_sampled(block, address) {
        let draw = choose|draw: u64| #[trigger]
            draw_fits(block.1, draw) && address == v4_sample(block.0, draw);
        assert(distance == draw);
    }
}

/// Whether candidates have what 120 numbers give that were drawn at random from each
/// range: from one up to the last but one that the range's block has room for.
pub open spec fn drawn_from_each(
    ranges: Seq<Seq<char>>,
    draws: Seq<Seq<u64>>,
    candidates: Seq<u32>,
) -> bool {
    &&& draws.len() == ranges.len()
    &&& forall|i: int| 0 <= i < ranges.len() ==> (#[trigger] draws[i]).len() == 120
    &&& forall|i: int, k: int|
        0 <= i < ranges.len() && 0 <= k < 120 ==> {
            let (network, prefix) = v4_cidr(ranges[i])->Ok_0;
            let size = pow2((32 - prefix) as nat);
            let draw = #[trigger] draws[i][k];
            &&& candidates.contains(((network + draw) % 0x1_0000_0000) as u32)
            &&& size <= 2 ==> draw == 0
            &&& size > 2 ==> exists|drawn: Drawn|
                #[trigger] drawn.value() == draw && drawn.between() == (1u64, (size - 1) as u64)
        }
}

/// The candidates of a list of blocks are what 120 draws from each range give.
proof fn lemma_drawn_from_each(
    ranges: Seq<Seq<char>>,
    blocks: Seq<(u32, u8)>,
    candidates: Seq<u32>,
) -> (draws: Seq<Seq<u64>>)
    requires
        blocks.len() == ranges.len(),
        forall|i: int|
            0 <= i < ranges.len() ==> v4_cidr(#[trigger] ranges[i]) == Ok::<(u32, u8), CidrError>(
                blocks[i],
            ),
        v4_drawn(blocks, candidates),
    ensures
        drawn_from_each(ranges, draws, candidates),
{
    let draws = choose|draws: Seq<Seq<u64>>| #[trigger]
        draws_fit(blocks, draws) && candidates == distinct(v4_samples(blocks, draws));
    let samples = v4_samples(blocks, draws);
    lemma_v4_samples(blocks, draws);
    law_distinct(samples);
    assert forall|i: int, k: int| 0 <= i < ranges.len() && 0 <= k < 120 implies ({
        let (network, prefix) = v4_cidr(ranges[i])->Ok_0;
        let size = pow2((32 - prefix) as nat);
        let draw = #[trigger] draws[i][k];
        &&& candidates.contains(((network + draw) % 0x1_0000_0000) as u32)
        &&& size <= 2 ==> draw == 0
        &&& size > 2 ==> exists|drawn: Drawn|
            #[trigger] drawn.value() == draw && drawn.between() == (1u64, (size - 1) as u64)
    }) by {
        assert(draws[i].len() == 120);
        assert(v4_cidr(ranges[i]) == Ok::<(u32, u8), CidrError>(blocks[i]));
        assert(samples.contains(v4_sample(blocks[i].0, draws[i][k])));
        assert(was_drawn(blocks[i].1, draws[i][k]));
    }
    draws
}

/// Candidates are drawn if and only if every range is a block; otherwise the first
/// that is none is told, with what is wrong with it.
pub proof fn law_ranges_must_be_blocks(ranges: &[String], result: Result<Vec<u32>, RangeError>)
    requires
        ranges@.len() <= usize::MAX,
        call_ensures(generate_ipv4_candidates, (ranges,), result),
    ensures
        result is Ok <==> forall|i: int|
            0 <= i < ranges@.len() ==> v4_cidr((#[trigger] ranges@[i])@) is Ok,
        result matches Err(error) ==> {
            &&& error.position < ranges@.len()
            &&& v4_cidr(ranges@[error.position as int]@) == Err::<(u32, u8), CidrError>(
                error.reason,
            )
            &&& forall|i: int|
                0 <= i < error.position ==> v4_cidr((#[trigger] ranges@[i])@) is Ok
        },
{
    let all = texts(ranges@);
    law_block_for_each_range(all);
    assert(forall|i: int| 0 <= i < ranges@.len() ==> all[i] == (#[trigger] ranges@[i])@);
    match result {
        Err(error) => {
            assert(v4_cidr(ranges@[error.position as int]@) is Err);
        },
        Ok(_) => {
            assert forall|i: int| 0 <= i < ranges@.len() implies v4_cidr(
                (#[trigger] ranges@[i])@,
            ) is Ok by {
                assert(v4_cidr(all[i]) is Ok);
            }
        },
    }
}

/// Whether an address lies in the block that a range writes.
pub open spec fn in_range(cidr: Seq<char>, address: u32) -> bool {
    match v4_cidr(cidr) {
        Ok(block) => v4_lies_in(block, address),
        Err(_) => false,
    }
}

/// Whether some address of a list lies in the block that a range writes.
pub open spec fn some_in_range(cidr: Seq<char>, list: Seq<u32>) -> bool {
    exists|j: int| 0 <= j < list.len() && in_range(cidr, #[trigger] list[j])
}

/// Whether an address lies in a block that some range of a list writes.
pub open spec fn in_some_range(ranges: Seq<Seq<char>>, address: u32) -> bool {
    exists|i: int| 0 <= i < ranges.len() && in_range(#[trigger] ranges[i], address)
}

/// What can be drawn from a range's block lies in the range.
proof fn lemma_in_range(cidr: Seq<char>, block: (u32, u8), address: u32)
    requires
        v4_cidr(cidr) == Ok::<(u32, u8), CidrError>(block),
        v4_sampled(block, address),
    ensures
        in_range(cidr, address),
{
    assert(block.1 <= 32);
    law_v4_all_can_be_drawn(block, address);
}

/// Every range has a candidate that lies in it, every candidate lies in a range, and
/// none is there twice.
pub proof fn law_every_range_drawn(ranges: &[String], candidates: Vec<u32>)
    requires
        ranges@.len() <= usize::MAX,
        call_ensures(
            generate_ipv4_candidates,
            (ranges,),
            Ok::<Vec<u32>, RangeError>(candidates),
        ),
    ensures
        candidates@.no_duplicates(),
        candidates@.len() <= 120 * ranges@.len(),
        forall|i: int|
            0 <= i < ranges@.len() ==> some_in_range((#[trigger] ranges@[i])@, candidates@),
        forall|j: int|
            0 <= j < candidates@.len() ==> in_some_range(texts(ranges@), #[trigger] candidates@[j]),
{
    let all = texts(ranges@);
    let blocks = v4_blocks(all)->Ok_0;
    law_block_for_each_range(all);
    law_v4_candidates(blocks, candidates@);
    assert forall|i: int| 0 <= i < ranges@.len() implies some_in_range(
        (#[trigger] ranges@[i])@,
        candidates@,
    ) by {
        assert(all[i] == ranges@[i]@);
        assert(v4_cidr(all[i]) == Ok::<(u32, u8), CidrError>(blocks[i]));
        let j = choose|j: int|
            0 <= j < candidates@.len() && v4_sampled(
                #[trigger] blocks[i],
                #[trigger] candidates@[j],
            );
        lemma_in_range(all[i], blocks[i], candidates@[j]);
    }
    assert forall|j: int| 0 <= j < candidates@.len() implies in_some_range(
        all,
        #[trigger] candidates@[j],
    ) by {
        let i = choose|i: int|
            0 <= i < blocks.len() && v4_sampled(#[trigger] blocks[i], #[trigger] candidates@[j]);
        assert(v4_cidr(all[i]) == Ok::<(u32, u8), CidrError>(blocks[i]));
        lemma_in_range(all[i], blocks[i], candidates@[j]);
    }
}

/// The candidates have what 120 numbers give that were drawn at random from each
/// range.
pub proof fn law_draws_from_each_range(ranges: &[String], candidates: Vec<u32>)
    requires
        ranges@.len() <= usize::MAX,
        call_ensures(
            generate_ipv4_candidates,
            (ranges,),
            Ok::<Vec<u32>, RangeError>(candidates),
        ),
    ensures
        exists|draws: Seq<Seq<u64>>| #[trigger]
            drawn_from_each(texts(ranges@), draws, candidates@),
{
    let all = texts(ranges@);
    law_block_for_each_range(all);
    let draws = lemma_drawn_from_each(all, v4_blocks(all)->Ok_0, candidates@);
    assert(drawn_from_each(all, draws, candidates@));
}

/// Draws from one more block give their addresses after the others: the block's
/// address and the draw added up, without the carry out of the highest bit.
pub proof fn law_samples_block_by_block(
    blocks: Seq<(u32, u8)>,
    draws: Seq<Seq<u64>>,
    block: (u32, u8),
    more: Seq<u64>,
)
    ensures
        v4_samples(blocks.push(block), draws.push(more)) == v4_samples(blocks, draws) + Seq::new(
            more.len(),
            |k: int| ((block.0 + more[k]) % 0x1_0000_0000) as u32,
        ),
        v4_samples(Seq::empty(), draws) == Seq::<u32>::empty(),
{
    assert(blocks.push(block).drop_last() =~= blocks);
    assert(draws.push(more).drop_last() =~= draws);
    assert(v4_samples(blocks.push(block), draws.push(more)) =~= v4_samples(blocks, draws)
        + Seq::new(more.len(), |k: int| ((block.0 + more[k]) % 0x1_0000_0000) as u32));
}

/// Draws from a block lie between one and the last but one that it has room for,
/// and the position of a picked range between zero and the number of ranges.
pub proof fn law_bounds(
    prefix: u8,
    bounds: Option<(u64, u64)>,
    ranges: &[String],
    picks: (u64, u64),
)
    requires
        prefix <= 32,
        ranges@.len() > 0,
        call_ensures(draw_bounds, (prefix,), bounds),
        call_ensures(pick_bounds, (ranges,), picks),
    ensures
        bounds is None <==> pow2((32 - prefix) as nat) <= 2,
        bounds matches Some((low, high)) ==> low == 1 && high + 1 == pow2((32 - prefix) as nat),
        picks.0 == 0,
        picks.1 == ranges@.len(),
{
}

/// Whether an address has the leading bits of a block.
pub open spec fn v6_lies_in(cidr: Seq<char>, address: u128) -> bool {
    match v6_cidr(cidr) {
        Ok((network, prefix)) => address as nat / pow2((128 - prefix) as nat) == network as nat
            / pow2((128 - prefix) as nat),
        Err(_) => false,
    }
}

/// Whether an address has the leading bits of a block that some range writes.
pub open spec fn v6_lies_in_some(ranges: Seq<Seq<char>>, address: u128) -> bool {
    exists|i: int| 0 <= i < ranges.len() && v6_lies_in(#[trigger] ranges[i], address)
}

/// The addresses that can be drawn from a list of ranges are those that have the
/// leading bits of a range that is a block, and no others.
pub proof fn law_v6_all_can_be_drawn(ranges: Seq<Seq<char>>, address: u128)
    requires
        ranges.len() <= usize::MAX,
    ensures
        v6_in_blocks(ranges, address) <==> v6_lies_in_some(ranges, address),
{
    if v6_in_blocks(ranges, address) {
        let draw = choose|draw: Ipv6Draw| #[trigger]
            v6_draw_fits(ranges, draw) && address == v6_drawn(ranges, draw);
        let (network, prefix) = v6_cidr(ranges[draw.pick as int])->Ok_0;
        assert(prefix <= 128);
        law_v6_sample_in_block(network, prefix, draw.bits);
        assert(v6_lies_in(ranges[draw.pick as int], address));
    }
    if v6_lies_in_some(ranges, address) {
        let i = choose|i: int| 0 <= i < ranges.len() && v6_lies_in(#[trigger] ranges[i], address);
        let (network, prefix) = v6_cidr(ranges[i])->Ok_0;
        assert(prefix <= 128);
        let draw = Ipv6Draw { pick: i as usize, bits: address };
        if prefix == 0 {
            assert((network & 0) | (address & !0u128) == address) by (bit_vector);
        } else {
            let gap = (128 - prefix) as u32;
            let wide = gap as u128;
            lemma_u128_shr_is_div(address, wide);
            lemma_u128_shr_is_div(network, wide);
            assert((network & (u128::MAX << gap)) | (address & !(u128::MAX << gap)) == address)
                by (bit_vector)
                requires
                    gap < 128,
                    wide == gap as u128,
                    address >> wide == network >> wide,
            ;
        }
        assert(v6_draw_fits(ranges, draw));
        assert(address == v6_drawn(ranges, draw));
    }
}

/// A list of 128-bit addresses has twenty-five, all different, each with the leading
/// bits of some range. An error is that of some range.
pub proof fn law_listed_addresses(ranges: &[String], result: Result<Vec<u128>, RangeError>)
    requires
        0 < ranges@.len() <= usize::MAX,
        !v6_too_few(texts(ranges@)),
        call_ensures(generate_ipv6_candidates, (ranges,), result),
    ensures
        result matches Ok(list) ==> {
            &&& list@.len() == 25
            &&& list@.no_duplicates()
            &&& forall|j: int|
                0 <= j < list@.len() ==> v6_lies_in_some(texts(ranges@), #[trigger] list@[j])
        },
        result matches Err(error) ==> {
            &&& error.position < ranges@.len()
            &&& v6_cidr(ranges@[error.position as int]@) == Err::<(u128, u8), CidrError>(
                error.reason,
            )
        },
        (forall|i: int| 0 <= i < ranges@.len() ==> v6_cidr((#[trigger] ranges@[i])@) is Ok)
            ==> result is Ok,
{
    let all = texts(ranges@);
    assert(forall|i: int| 0 <= i < ranges@.len() ==> all[i] == (#[trigger] ranges@[i])@);
    if let Ok(list) = result {
        law_v6_candidates(all, list@);
        assert forall|j: int| 0 <= j < list@.len() implies v6_lies_in_some(
            all,
            #[trigger] list@[j],
        ) by {
            assert(v6_in_blocks(all, list@[j]));
            law_v6_all_can_be_drawn(all, list@[j]);
        }
    }
    if forall|i: int| 0 <= i < ranges@.len() ==> v6_cidr((#[trigger] ranges@[i])@) is Ok {
        assert forall|i: int| 0 <= i < all.len() implies v6_cidr(#[trigger] all[i]) is Ok by {
            assert(v6_cidr(ranges@[i]@) is Ok);
        }
    }
}

/// A draw adds its address at the end of the list unless it is there: the leading
/// bits of the picked block, and the drawn bits after them.
pub proof fn law_draw_adds_address(
    ranges: Seq<Seq<char>>,
    draws: Seq<Ipv6Draw>,
    draw: Ipv6Draw,
    address: u128,
)
    requires
        v6_draw_fits(ranges, draw),
        address == v6_drawn(ranges, draw),
    ensures
        v6_candidates(ranges, draws.push(draw)) == if v6_candidates(ranges, draws).contains(
            address,
        ) {
            v6_candidates(ranges, draws)
        } else {
            v6_candidates(ranges, draws).push(address)
        },
        v6_candidates(ranges, Seq::empty()) == Seq::<u128>::empty(),
        forall|i: u32|
            i < 128 ==> {
                let (network, prefix) = v6_cidr(ranges[draw.pick as int])->Ok_0;
                #[trigger] bit(address, i) == if i >= 128 - prefix {
                    bit(network, i)
                } else {
                    bit(draw.bits, i)
                }
            },
{
    lemma_v6_push(ranges, draws, draw);
    lemma_extend_single(v6_candidates(ranges, draws), address);
    assert(v6_candidates(ranges, Seq::empty()) =~= Seq::empty());
    let (network, prefix) = v6_cidr(ranges[draw.pick as int])->Ok_0;
    assert(prefix <= 128);
    assert forall|i: u32| i < 128 implies #[trigger] bit(address, i) == (if i >= 128 - prefix {
        bit(network, i)
    } else {
        bit(draw.bits, i)
    }) by {
        law_v6_sample_bits(network, prefix, draw.bits, i);
    }
}

/// A search ends with twenty-five addresses, or with the picked range if it is no
/// block, or after as many draws as sixty-four bits count; it goes on otherwise.
pub proof fn law_search_ends(
    search: Ipv6Search,
    ranges: &[String],
    draw: Ipv6Draw,
    step: Ipv6Step,
)
    requires
        search.wf(texts(ranges@)),
        draw.pick < ranges@.len(),
        call_ensures(Ipv6Search::step, (search, ranges, draw), step),
    ensures
        ({
            let found = v6_candidates(texts(ranges@), search.history().push(draw));
            let block = v6_cidr(ranges@[draw.pick as int]@);
            let count = search.history().len() + 1;
            match step {
                Ipv6Step::Done(list) => block is Ok && list@ == found && found.len() == 25,
                Ipv6Step::Next(_) => block is Ok && found.len() < 25 && count
                    < 0xffff_ffff_ffff_ffff,
                Ipv6Step::Failed(error) => block == Err::<(u128, u8), CidrError>(error.reason)
                    && error.position == draw.pick,
                Ipv6Step::GivenUp => block is Ok && found.len() < 25 && count
                    == 0xffff_ffff_ffff_ffff,
            }
        }),
{
    let all = texts(ranges@);
    let history = search.history().push(draw);
    assert(all[draw.pick as int] == ranges@[draw.pick as int]@);
    if v6_unfinished(all, history) {
        assert(v6_draw_fits(all, history[history.len() - 1]));
    }
}

/// A list of 128-bit addresses is what draws at random gave, or a search by as many
/// draws as sixty-four bits count was given up.
pub proof fn law_listed_at_random(ranges: &[String], list: Vec<u128>)
    requires
        ranges@.len() > 0,
        !v6_too_few(texts(ranges@)),
        call_ensures(generate_ipv6_candidates, (ranges,), Ok::<Vec<u128>, RangeError>(list)),
    ensures
        exists|draws: Seq<Ipv6Draw>| #[trigger]
            all_at_random(ranges@.len(), draws) && {
                let found = v6_candidates(texts(ranges@), draws);
                ||| list@ == found
                ||| found.len() < 25 && draws.len() == 0xffff_ffff_ffff_ffff
            },
{
    let all = texts(ranges@);
    let draws = choose|draws: Seq<Ipv6Draw>| #[trigger]
        all_at_random(all.len(), draws) && {
            ||| list@ == v6_candidates(all, draws)
            ||| v6_unfinished(all, draws) && draws.len() == u64::MAX
        };
    assert(all_at_random(ranges@.len(), draws));
}

/// Whether a list consists of different addresses, each with the leading bits of
/// some range.
pub open spec fn different_members(ranges: Seq<Seq<char>>, list: Seq<u128>) -> bool {
    &&& list.no_duplicates()
    &&& forall|j: int| 0 <= j < list.len() ==> v6_lies_in_some(ranges, #[trigger] list[j])
}

/// A search can end if and only if some range is no block, or the ranges have
/// twenty-five different addresses.
pub proof fn law_when_a_search_can_end(ranges: &[String], can_end: bool)
    requires
        ranges@.len() <= usize::MAX,
        call_ensures(search_can_end, (ranges,), can_end),
    ensures
        can_end <==> {
            ||| exists|i: int|
                0 <= i < ranges@.len() && v6_cidr((#[trigger] ranges@[i])@) is Err
            ||| exists|list: Seq<u128>| #[trigger]
                different_members(texts(ranges@), list) && list.len() >= 25
        },
{
    let all = texts(ranges@);
    assert(forall|i: int| 0 <= i < ranges@.len() ==> all[i] == (#[trigger] ranges@[i])@);
    assert forall|list: Seq<u128>| #[trigger]
        different_members(all, list) <==> v6_distinct_members(all, list) by {
        lemma_same_members(all, list);
    }
    if !can_end {
        assert forall|i: int| 0 <= i < ranges@.len() implies v6_cidr(
            (#[trigger] ranges@[i])@,
        ) is Ok by {
            assert(v6_cidr(all[i]) is Ok);
        }
    } else if all_blocks(all) {
        let list = choose|list: Seq<u128>| #[trigger]
            v6_distinct_members(all, list) && list.len() >= IPV6_OUTPUT_COUNT;
        assert(different_members(all, list));
    } else {
        let i = choose|i: int| 0 <= i < all.len() && v6_cidr(#[trigger] all[i]) is Err;
        assert(v6_cidr(ranges@[i]@) is Err);
    }
}

/// The addresses of the blocks are those with their leading bits.
proof fn lemma_same_members(ranges: Seq<Seq<char>>, list: Seq<u128>)
    requires
        ranges.len() <= usize::MAX,
    ensures
        different_members(ranges, list) <==> v6_distinct_members(ranges, list),
{
    assert forall|j: int| 0 <= j < list.len() implies (v6_in_blocks(ranges, #[trigger] list[j])
        <==> v6_lies_in_some(ranges, list[j])) by {
        law_v6_all_can_be_drawn(ranges, list[j]);
    }
}

} // verus!
