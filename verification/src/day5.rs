//! Boarding-pass decoding: a ten-character code names a seat by
//! binary partitioning, seven row bits then three column bits.  The
//! first task finds the highest seat number of a listing, the second
//! the one seat missing between its two neighbours.

use vstd::prelude::*;
use vstd::relations::sorted_by;
use vstd::relations::total_ordering;
use vstd::seq_lib::lemma_sorted_unique;
use vstd::string::StrSliceExecFns;
use crate::text;

verus! {

/// The binary value of `code`, where `upper` reads as a 1 bit and any
/// other character as 0, most significant bit first.
pub open spec fn bits_value(code: Seq<char>, upper: char) -> int
    decreases code.len(),
{
    if code.len() == 0 {
        0
    } else {
        2 * bits_value(code.drop_last(), upper) + (if code.last() == upper {
            1int
        } else {
            0int
        })
    }
}

/// Exclusive upper bound of a `n`-bit value: two to the `n`th.
pub open spec fn bits_limit(n: nat) -> int
    decreases n,
{
    if n == 0 {
        1
    } else {
        2 * bits_limit((n - 1) as nat)
    }
}

pub proof fn lemma_bits_value_bounds(code: Seq<char>, upper: char)
    ensures
        0 <= bits_value(code, upper) < bits_limit(code.len()),
    decreases code.len(),
{
    if code.len() > 0 {
        lemma_bits_value_bounds(code.drop_last(), upper);
    }
}

/// A bit string is worth at least any of its prefixes.
pub proof fn lemma_bits_value_prefix(code: Seq<char>, n: int, upper: char)
    requires
        0 <= n <= code.len(),
    ensures
        0 <= bits_value(code.take(n), upper) <= bits_value(code, upper),
    decreases code.len(),
{
    if n < code.len() {
        assert(code.take(n) =~= code.drop_last().take(n));
        lemma_bits_value_prefix(code.drop_last(), n, upper);
        lemma_bits_value_bounds(code.drop_last(), upper);
    } else {
        assert(code.take(n) =~= code);
        lemma_bits_value_bounds(code, upper);
    }
}

/// A decoded boarding pass.
#[derive(Clone, Copy, PartialEq, Eq, Structural, Debug)]
pub struct Pass {
    pub row: u32,
    pub column: u32,
}

impl Pass {
    /// Decodes a binary-partition substring: `upper_char` reads as a
    /// 1 bit, anything else as a 0 bit.
    pub fn sub_pass(code: &str, upper_char: char) -> (r: u32)
        requires
            code@.len() >= 1,
            bits_value(code@, upper_char) <= u32::MAX,
        ensures
            r == bits_value(code@, upper_char),
    {
        let n = code.unicode_len();
        let mut acc: u32 = 0;
        let mut i: usize = 0;
        while i < n
            invariant
                i <= n,
                n == code@.len(),
                acc == bits_value(code@.take(i as int), upper_char),
                bits_value(code@, upper_char) <= u32::MAX,
            decreases n - i,
        {
            let c = code.get_char(i);
            proof {
                assert(code@.take(i + 1).drop_last() =~= code@.take(i as int));
                assert(code@.take(i + 1).last() == code@[i as int]);
                lemma_bits_value_prefix(code@, i + 1, upper_char);
            }
            acc = 2 * acc + (if c == upper_char {
                1
            } else {
                0
            });
            i = i + 1;
        }
        proof {
            assert(code@.take(n as int) =~= code@);
        }
        acc
    }

    /// Splits a code into its row part (seven characters, 'B' high)
    /// and column part (three characters, 'R' high).
    pub fn decode_pass(code: &str) -> (r: Pass)
        requires
            code@.len() >= 10,
        ensures
            r.row == bits_value(code@.subrange(0, 7), 'B'),
            r.column == bits_value(code@.subrange(7, 10), 'R'),
    {
        let row_part = code.substring_char(0, 7);
        let col_part = code.substring_char(7, 10);
        proof {
            lemma_bits_value_bounds(row_part@, 'B');
            lemma_bits_value_bounds(col_part@, 'R');
            assert(bits_limit(7) == 128) by {
                reveal_with_fuel(bits_limit, 8);
            }
            assert(bits_limit(3) == 8) by {
                reveal_with_fuel(bits_limit, 4);
            }
        }
        Pass { row: Pass::sub_pass(row_part, 'B'), column: Pass::sub_pass(col_part, 'R') }
    }

    /// The seat number: row times eight plus column.
    pub fn get_id(&self) -> (r: u32)
        requires
            self.row * 8 + self.column <= u32::MAX,
        ensures
            r == self.row * 8 + self.column,
    {
        (self.row * 8) + self.column
    }
}

/// The seat number a listing line denotes.
pub open spec fn pass_id(line: Seq<char>) -> int {
    8 * bits_value(line.subrange(0, 7), 'B') + bits_value(line.subrange(7, 10), 'R')
}

/// Every line of the listing is long enough to decode.
pub open spec fn wf_pass_listing(s: Seq<char>) -> bool {
    forall|i: int| 0 <= i < text::spec_lines(s).len() ==> (#[trigger] text::spec_lines(s)[i]).len()
        >= 10
}

/// The seat numbers of a listing, in input order.
pub open spec fn spec_ids(s: Seq<char>) -> Seq<u32> {
    text::spec_lines(s).map_values(|l: Seq<char>| pass_id(l) as u32)
}

/// Every seat number is below 1024: seven row bits and three column
/// bits.
pub proof fn lemma_pass_id_bounds(line: Seq<char>)
    requires
        line.len() >= 10,
    ensures
        0 <= pass_id(line) < 1024,
{
    lemma_bits_value_bounds(line.subrange(0, 7), 'B');
    lemma_bits_value_bounds(line.subrange(7, 10), 'R');
    assert(bits_limit(7) == 128) by {
        reveal_with_fuel(bits_limit, 8);
    }
    assert(bits_limit(3) == 8) by {
        reveal_with_fuel(bits_limit, 4);
    }
}

/// Decodes every line of the listing into its seat number.
pub fn get_ticket_ids(input: &str) -> (r: Vec<u32>)
    requires
        wf_pass_listing(input@),
    ensures
        r@ == spec_ids(input@),
{
    let lines = text::split_lines(input);
    let mut r: Vec<u32> = Vec::new();
    let mut i: usize = 0;
    while i < lines.len()
        invariant
            i <= lines@.len(),
            lines.deep_view() == text::spec_lines(input@),
            wf_pass_listing(input@),
            r@.len() == i,
            forall|j: int| 0 <= j < i ==> r@[j] == spec_ids(input@)[j],
        decreases lines@.len() - i,
    {
        proof {
            assert(lines@[i as int]@ == lines.deep_view()[i as int]);
            lemma_pass_id_bounds(lines@[i as int]@);
        }
        let pass = Pass::decode_pass(lines[i].as_str());
        r.push(pass.get_id());
        i = i + 1;
    }
    proof {
        assert(r@ =~= spec_ids(input@));
    }
    r
}

/// The order the seat listing is sorted by.
pub open spec fn id_le() -> spec_fn(u32, u32) -> bool {
    |x: u32, y: u32| x <= y
}

/// Answer of the first task: the highest seat number of the listing.
pub fn task1(input: &str) -> (r: u32)
    requires
        wf_pass_listing(input@),
        text::spec_lines(input@).len() > 0,
    ensures
        spec_ids(input@).contains(r),
        forall|j: int| 0 <= j < spec_ids(input@).len() ==> spec_ids(input@)[j] <= r,
{
    let ids = get_ticket_ids(input);
    let mut best: u32 = ids[0];
    let mut i: usize = 1;
    while i < ids.len()
        invariant
            1 <= i <= ids@.len(),
            ids@ == spec_ids(input@),
            spec_ids(input@).contains(best),
            forall|j: int| 0 <= j < i ==> spec_ids(input@)[j] <= best,
        decreases ids@.len() - i,
    {
        if ids[i] > best {
            best = ids[i];
        }
        i = i + 1;
    }
    best
}

/// Sorts seat numbers ascending by repeatedly moving the smallest
/// remaining one over.
fn sort_ids(ids: Vec<u32>) -> (r: Vec<u32>)
    ensures
        sorted_by(r@, id_le()),
        r@.to_multiset() == ids@.to_multiset(),
{
    broadcast use vstd::seq_lib::group_to_multiset_ensures;
    broadcast use vstd::multiset::group_multiset_axioms;

    let mut src = ids;
    let mut r: Vec<u32> = Vec::new();
    while src.len() > 0
        invariant
            sorted_by(r@, id_le()),
            r@.to_multiset().add(src@.to_multiset()) == ids@.to_multiset(),
            forall|a: int, b: int|
                0 <= a < r@.len() && 0 <= b < src@.len() ==> r@[a] <= src@[b],
        decreases src@.len(),
    {
        let mut m: usize = 0;
        let mut j: usize = 1;
        while j < src.len()
            invariant
                m < j <= src@.len() || (j <= src@.len() && m == 0),
                m < src@.len(),
                forall|t: int| 0 <= t < j ==> src@[m as int] <= src@[t],
            decreases src@.len() - j,
        {
            if src[j] < src[m] {
                m = j;
            }
            j = j + 1;
        }
        let ghost src_before = src@;
        let ghost r_before = r@;
        let picked = src.remove(m);
        r.push(picked);
        proof {
            assert(sorted_by(r@, id_le())) by {
                assert(forall|a: int, b: int|
                    0 <= a <= b < r@.len() ==> id_le()(r@[a], r@[b]));
            }
            let m_i = m as int;
            assert(src_before =~= src_before.take(m_i) + (seq![picked]
                + src_before.skip(m_i + 1)));
            vstd::seq_lib::lemma_multiset_commutative(
                src_before.take(m_i),
                seq![picked] + src_before.skip(m_i + 1),
            );
            vstd::seq_lib::lemma_multiset_commutative(seq![picked], src_before.skip(m_i + 1));
            assert(src@ =~= src_before.take(m_i) + src_before.skip(m_i + 1));
            vstd::seq_lib::lemma_multiset_commutative(
                src_before.take(m_i),
                src_before.skip(m_i + 1),
            );
            assert(r@ =~= r_before + seq![picked]);
            vstd::seq_lib::lemma_multiset_commutative(r_before, seq![picked]);
            assert(r@.to_multiset().add(src@.to_multiset()) =~= ids@.to_multiset());
        }
    }
    proof {
        assert(r@.to_multiset() =~= ids@.to_multiset());
    }
    r
}

/// The first hole between two seat numbers two apart, scanning the
/// sorted listing from the low end; the missing number in between.
pub open spec fn gap_scan(s: Seq<u32>, i: int) -> Option<u32>
    decreases s.len() - i,
{
    if i < 1 || i >= s.len() {
        None
    } else if s[i] > 1 && s[i - 1] == s[i] - 2 {
        Some((s[i] - 1) as u32)
    } else {
        gap_scan(s, i + 1)
    }
}

/// The listing's seat numbers in ascending order.
pub open spec fn sorted_ids(s: Seq<char>) -> Seq<u32> {
    spec_ids(s).sort_by(id_le())
}

/// Answer of the second task: the seat number missing between its two
/// neighbours, or nothing when the sorted listing has no such hole.
pub fn task2(input: &str) -> (r: Option<u32>)
    requires
        wf_pass_listing(input@),
    ensures
        r == gap_scan(sorted_ids(input@), 1),
{
    let ids = get_ticket_ids(input);
    let sorted = sort_ids(ids);
    proof {
        assert(total_ordering(id_le()));
        spec_ids(input@).lemma_sort_by_ensures(id_le());
        lemma_sorted_unique(sorted@, sorted_ids(input@), id_le());
    }
    let mut i: usize = 1;
    while i < sorted.len()
        invariant
            1 <= i,
            sorted@ == sorted_ids(input@),
            gap_scan(sorted@, 1) == gap_scan(sorted@, i as int),
        decreases sorted@.len() - i,
    {
        let id = sorted[i];
        let prev = sorted[i - 1];
        if id > 1 && prev == id - 2 {
            return Some(id - 1);
        }
        i = i + 1;
    }
    None
}

/// The calendar day this module solves.
pub struct Day5 {}

impl Day5 {
    /// The day's number.
    pub fn get_day_number(&self) -> (r: usize)
        ensures
            r == 5,
    {
        5
    }
}

} // verus!
