//! How generated code tests a byte against a set of byte ranges, and the
//! jump table of a fork with many targets.
use crate::regex::range_bytes;
use vstd::prelude::*;

verus! {

/// The number of set bits of `x`.
pub open spec fn ones(x: u8) -> nat
    decreases x,
{
    if x == 0 {
        0
    } else {
        ones(x / 2) + (x % 2) as nat
    }
}

/// The first offset from `offset` on, and at most `lo`, with at most one bit
/// set.
pub open spec fn offset_from(offset: u8, lo: u8) -> u8
    decreases lo - offset,
{
    if ones(offset) > 1 && lo > offset {
        offset_from((offset + 1) as u8, lo)
    } else {
        offset
    }
}

/// The offset that a 64-bit lookup for bytes from `lo` to `hi` subtracts:
/// from `hi - 63` (or 0) up to the first value with at most one bit set, but
/// not past `lo`.
pub open spec fn lut_offset(lo: u8, hi: u8) -> u8 {
    offset_from(
        if hi >= 63 {
            (hi - 63) as u8
        } else {
            0
        },
        lo,
    )
}

/// The 64-bit table with bit `b - offset` set for each byte `b` of `bytes`.
pub open spec fn lut_table(bytes: Seq<u8>, offset: u8) -> u64
    decreases bytes.len(),
{
    if bytes.len() == 0 {
        0
    } else {
        lut_table(bytes.drop_last(), offset) | (1u64 << ((bytes.last() - offset) as u64))
    }
}

/// How a byte is tested against a set of ranges.
#[derive(Debug, Clone, Copy, PartialEq, Eq, Structural)]
pub enum PatternTest {
    /// A match on the ranges themselves.
    Match,
    /// Bit `byte - offset` of `table`.
    Lut { offset: u8, table: u64 },
    /// A shared lookup table, whose flags for these ranges are
    /// [`table_row`].
    Table,
}

/// The test for `ranges` (at least one, the first starting at the lowest
/// byte and the last ending at the highest): a match for at most two
/// ranges, a 64-bit table when the bytes span less than 64 values, else a
/// shared table.
pub open spec fn pattern_test(ranges: Seq<(u8, u8)>) -> PatternTest {
    let lo = ranges[0].0;
    let hi = ranges.last().1;
    if ranges.len() <= 2 {
        PatternTest::Match
    } else if hi - lo < 64 {
        PatternTest::Lut {
            offset: lut_offset(lo, hi),
            table: lut_table(range_bytes(ranges), lut_offset(lo, hi)),
        }
    } else {
        PatternTest::Table
    }
}

/// The number of set bits of `x`.
fn count_ones(x: u8) -> (r: u32)
    ensures
        r == ones(x),
{
    let mut rest = x;
    let mut count: u32 = 0;
    proof {
        lemma_ones_bound(x);
    }
    while rest > 0
        invariant
            count + ones(rest) == ones(x),
            ones(x) <= 255,
        decreases rest,
    {
        count = count + (rest % 2) as u32;
        rest = rest / 2;
    }
    count
}

proof fn lemma_ones_bound(x: u8)
    ensures
        ones(x) <= x,
    decreases x,
{
    if x > 0 {
        lemma_ones_bound(x / 2);
    }
}

/// `offset_from` stays between its start and `lo`.
proof fn lemma_offset_range(offset: u8, lo: u8)
    requires
        offset <= lo,
    ensures
        offset <= offset_from(offset, lo) <= lo,
    decreases lo - offset,
{
    if ones(offset) > 1 && lo > offset {
        lemma_offset_range((offset + 1) as u8, lo);
    }
}

/// The test that generated code uses for a byte against `ranges`.
pub fn generate_test(ranges: &Vec<(u8, u8)>) -> (r: PatternTest)
    requires
        ranges@.len() >= 1,
        ranges@[0].0 <= ranges@.last().1,
        ranges@.len() >= 3 && ranges@.last().1 - ranges@[0].0 < 64 ==> forall|k: int|
            0 <= k < range_bytes(ranges@).len() ==> lut_offset(ranges@[0].0, ranges@.last().1)
                <= #[trigger] range_bytes(ranges@)[k] < lut_offset(
                ranges@[0].0,
                ranges@.last().1,
            ) + 64,
    ensures
        r == pattern_test(ranges@),
{
    let lo = ranges[0].0;
    let hi = ranges[ranges.len() - 1].1;
    if ranges.len() <= 2 {
        return PatternTest::Match;
    }
    if hi - lo >= 64 {
        return PatternTest::Table;
    }
    let mut offset: u8 = hi.saturating_sub(63);
    proof {
        lemma_offset_range(offset, lo);
    }
    while count_ones(offset) > 1 && lo - offset > 0
        invariant
            offset <= lo,
            offset_from(offset, lo) == lut_offset(lo, hi),
        decreases lo - offset,
    {
        offset = offset + 1;
    }
    let bytes = crate::regex::class_bytes(ranges);
    let mut table: u64 = 0;
    let mut i: usize = 0;
    while i < bytes.len()
        invariant
            i <= bytes@.len(),
            bytes@ == range_bytes(ranges@),
            offset == lut_offset(lo, hi),
            forall|k: int| 0 <= k < bytes@.len() ==> offset <= #[trigger] bytes@[k] < offset + 64,
            table == lut_table(bytes@.take(i as int), offset),
        decreases bytes@.len() - i,
    {
        let byte = bytes[i];
        assert(bytes@.take(i + 1).drop_last() =~= bytes@.take(i as int));
        assert(bytes@.take(i + 1).last() == byte);
        table = table | (1u64 << ((byte - offset) as u64));
        i = i + 1;
    }
    assert(bytes@.take(bytes@.len() as int) =~= bytes@);
    PatternTest::Lut { offset, table }
}

/// `b` lies in one of the inclusive `ranges`.
pub open spec fn in_ranges(ranges: Seq<(u8, u8)>, b: u8) -> bool {
    exists|k: int| 0 <= k < ranges.len() && (#[trigger] ranges[k]).0 <= b <= ranges[k].1
}

/// The flags that a shared lookup table holds for `ranges`: entry `b` is set
/// when `b` lies in one of them.
pub fn table_row(ranges: &Vec<(u8, u8)>) -> (row: Vec<bool>)
    ensures
        row@.len() == 256,
        forall|b: u8| #[trigger] row@[b as int] == in_ranges(ranges@, b),
{
    let mut row: Vec<bool> = Vec::new();
    let mut b: usize = 0;
    while b < 256
        invariant
            b <= 256,
            row@.len() == b,
            forall|c: u8| c < b ==> #[trigger] row@[c as int] == in_ranges(ranges@, c),
        decreases 256 - b,
    {
        let byte = b as u8;
        let mut found = false;
        let mut k: usize = 0;
        while k < ranges.len()
            invariant
                k <= ranges@.len(),
                byte == b,
                found <==> exists|j: int| 0 <= j < k && (#[trigger] ranges@[j]).0 <= byte <= ranges@[j].1,
            decreases ranges@.len() - k,
        {
            if ranges[k].0 <= byte && byte <= ranges[k].1 {
                found = true;
            }
            k = k + 1;
        }
        let ghost prev = row@;
        row.push(found);
        assert forall|c: u8| c < b + 1 implies #[trigger] row@[c as int] == in_ranges(ranges@, c) by {
            if c < b {
                assert(row@[c as int] == prev[c as int]);
            }
        }
        b = b + 1;
    }
    row
}

/// Entry `b` of a fork's jump table: one more than the index of the last of
/// `targets` whose ranges hold `b`, or 0 when none does.
pub open spec fn jump_index(targets: Seq<Seq<(u8, u8)>>, b: u8) -> int
    decreases targets.len(),
{
    if targets.len() == 0 {
        0
    } else if range_bytes(targets.last()).contains(b) {
        targets.len() as int
    } else {
        jump_index(targets.drop_last(), b)
    }
}

/// The jump table of a fork whose targets read the bytes of `targets`, one
/// list of ranges each, in order: entry `b` names the target that reads `b`
/// (counting from 1), or 0 for a miss.
pub fn jump_table(targets: &Vec<Vec<(u8, u8)>>) -> (r: [u8; 256])
    requires
        targets@.len() < 256,
    ensures
        forall|b: u8| r@[b as int] as int == jump_index(targets@.map_values(|t: Vec<(u8, u8)>| t@), b),
{
    let ghost all = targets@.map_values(|t: Vec<(u8, u8)>| t@);
    let mut table = [0u8; 256];
    let mut idx: usize = 0;
    while idx < targets.len()
        invariant
            idx <= targets@.len() < 256,
            all == targets@.map_values(|t: Vec<(u8, u8)>| t@),
            table@.len() == 256,
            forall|b: u8| table@[b as int] as int == jump_index(all.take(idx as int), b),
        decreases targets@.len() - idx,
    {
        let bytes = crate::regex::class_bytes(&targets[idx]);
        let ghost before = table@;
        let mut k: usize = 0;
        while k < bytes.len()
            invariant
                k <= bytes@.len(),
                idx < targets@.len() < 256,
                table@.len() == 256,
                forall|b: u8|
                    table@[b as int] == if bytes@.take(k as int).contains(b) {
                        (idx + 1) as u8
                    } else {
                        before[b as int]
                    },
            decreases bytes@.len() - k,
        {
            let byte = bytes[k];
            table[byte as usize] = (idx + 1) as u8;
            assert forall|b: u8|
                table@[b as int] == if bytes@.take(k + 1).contains(b) {
                    (idx + 1) as u8
                } else {
                    before[b as int]
                } by {
                let t0 = bytes@.take(k as int);
                let t1 = bytes@.take(k + 1);
                if t0.contains(b) {
                    let w = choose|w: int| 0 <= w < t0.len() && #[trigger] t0[w] == b;
                    assert(t1[w] == b);
                }
                if b == byte {
                    assert(t1[k as int] == b);
                }
                if t1.contains(b) && b != byte {
                    let w = choose|w: int| 0 <= w < t1.len() && #[trigger] t1[w] == b;
                    assert(t0[w] == b);
                }
            }
            k = k + 1;
        }
        assert(bytes@.take(bytes@.len() as int) =~= bytes@);
        assert(all.take(idx + 1).drop_last() =~= all.take(idx as int));
        assert(all.take(idx + 1).last() == targets@[idx as int]@);
        idx = idx + 1;
    }
    assert(all.take(targets@.len() as int) =~= all);
    table
}

/// Whether generated code may spell `bytes` as a byte string literal: every
/// byte is printable ASCII.
pub fn printable_ascii(bytes: &[u8]) -> (r: bool)
    ensures
        r == forall|i: int| 0 <= i < bytes@.len() ==> 0x20 <= #[trigger] bytes@[i] < 0x7F,
{
    let mut i: usize = 0;
    while i < bytes.len()
        invariant
            i <= bytes@.len(),
            forall|j: int| 0 <= j < i ==> 0x20 <= #[trigger] bytes@[j] < 0x7F,
        decreases bytes@.len() - i,
    {
        if !(0x20 <= bytes[i] && bytes[i] < 0x7F) {
            return false;
        }
        i = i + 1;
    }
    true
}

proof fn lemma_bit_of_or(x: u64, k: u64, j: u64)
    requires
        k < 64,
        j < 64,
    ensures
        ((x | (1u64 << k)) >> j) & 1 == 1 <==> (((x >> j) & 1 == 1) || j == k),
{
    assert(((x | (1u64 << k)) >> j) & 1 == 1 <==> (((x >> j) & 1 == 1) || j == k)) by (bit_vector)
        requires
            k < 64,
            j < 64,
    ;
}

/// The 64-bit table tests membership: when every byte of `bytes` lies from
/// `offset` to `offset + 63`, bit `b - offset` of the table is set exactly
/// when `b` is one of `bytes`, for every `b` in that window.
pub proof fn lemma_lut_table_membership(bytes: Seq<u8>, offset: u8, b: u8)
    requires
        forall|k: int| 0 <= k < bytes.len() ==> offset <= #[trigger] bytes[k] < offset + 64,
        offset <= b < offset + 64,
    ensures
        (lut_table(bytes, offset) >> ((b - offset) as u64)) & 1 == 1 <==> bytes.contains(b),
    decreases bytes.len(),
{
    let j = (b - offset) as u64;
    if bytes.len() == 0 {
        assert((0u64 >> j) & 1 == 0) by (bit_vector);
    } else {
        let init = bytes.drop_last();
        let last = bytes.last();
        assert forall|k: int| 0 <= k < init.len() implies offset <= #[trigger] init[k] < offset + 64 by {
            assert(init[k] == bytes[k]);
        }
        lemma_lut_table_membership(init, offset, b);
        assert(offset <= bytes[bytes.len() - 1] < offset + 64);
        lemma_bit_of_or(lut_table(init, offset), (last - offset) as u64, j);
        assert(bytes =~= init.push(last));
        if init.contains(b) {
            let w = choose|w: int| 0 <= w < init.len() && init[w] == b;
            assert(bytes[w] == b);
        }
        if bytes.contains(b) && b != last {
            let w = choose|w: int| 0 <= w < bytes.len() && bytes[w] == b;
            assert(w < init.len());
            assert(init[w] == b);
        }
        if b == last {
            assert(bytes[bytes.len() - 1] == b);
        }
    }
}

} // verus!
