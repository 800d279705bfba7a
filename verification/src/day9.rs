//! Cipher stream checks: an entry is invalid when no two distinct
//! earlier entries of the preceding window sum to it.  The weakness
//! is the smallest plus the largest entry of the first contiguous run
//! that sums to the first invalid entry.

use vstd::prelude::*;
use vstd::string::StrSliceExecFns;
use crate::text;

verus! {

/// A number stream with the window length the pair rule checks.
pub struct Stream {
    pub preamble_length: usize,
    pub stream_content: Vec<u64>,
}

/// Any two entries of the stream can be added without overflow.
pub open spec fn sums_fit(c: Seq<u64>) -> bool {
    forall|a: int, b: int|
        0 <= a < c.len() && 0 <= b < c.len() ==> (#[trigger] c[a]) + (#[trigger] c[b])
            <= u64::MAX
}

/// No two entries at distinct positions of the window of `p` entries
/// before `i` sum to the entry at `i`.
pub open spec fn index_invalid(c: Seq<u64>, p: int, i: int) -> bool {
    !(exists|s: int, e: int|
        i - p <= s < e <= i - 1 && (#[trigger] c[s]) + (#[trigger] c[e]) == c[i])
}

/// The first position from `i` on that breaks the pair rule.
pub open spec fn invalid_scan(c: Seq<u64>, p: int, i: int) -> Option<int>
    decreases c.len() - i,
{
    if i < p || i >= c.len() {
        None
    } else if index_invalid(c, p, i) {
        Some(i)
    } else {
        invalid_scan(c, p, i + 1)
    }
}

/// Sum of the entries `c[s..e)`.
pub open spec fn range_sum(c: Seq<u64>, s: int, e: int) -> int
    decreases e - s,
{
    if s >= e {
        0
    } else {
        c[s] + range_sum(c, s + 1, e)
    }
}

/// The first start whose run `[s, end)` sums to `target`, starts
/// tried in ascending order.
pub open spec fn start_scan(c: Seq<u64>, target: int, end: int, s: int) -> Option<int>
    decreases end - s,
{
    if s >= end {
        None
    } else if range_sum(c, s, end) == target {
        Some(s)
    } else {
        start_scan(c, target, end, s + 1)
    }
}

/// The first run summing to `target`: ends tried in ascending order,
/// and for each end the starts in ascending order.
pub open spec fn run_scan(c: Seq<u64>, target: int, end: int) -> Option<(int, int)>
    decreases c.len() + 1 - end,
{
    if end < 0 || end > c.len() {
        None
    } else {
        match start_scan(c, target, end, 0) {
            Some(s) => Some((s, end)),
            None => run_scan(c, target, end + 1),
        }
    }
}

pub proof fn lemma_range_sum_nonneg(c: Seq<u64>, s: int, e: int)
    ensures
        range_sum(c, s, e) >= 0,
    decreases e - s,
{
    if s < e {
        lemma_range_sum_nonneg(c, s + 1, e);
        if !(0 <= s < c.len()) {
        }
    }
}

/// Extending a run by one entry adds that entry to its sum.
pub proof fn lemma_range_sum_extend(c: Seq<u64>, s: int, e: int)
    requires
        s <= e,
    ensures
        range_sum(c, s, e + 1) == range_sum(c, s, e) + c[e],
    decreases e - s,
{
    if s < e {
        lemma_range_sum_extend(c, s + 1, e);
    } else {
        assert(range_sum(c, e + 1, e + 1) == 0);
        assert(range_sum(c, e, e + 1) == c[e] + range_sum(c, e + 1, e + 1));
        assert(range_sum(c, e, e) == 0);
    }
}

proof fn lemma_start_scan_hit(c: Seq<u64>, target: int, end: int, s: int, hit: int)
    requires
        0 <= s <= hit < end,
        range_sum(c, hit, end) == target,
        forall|q: int| s <= q < hit ==> range_sum(c, q, end) != target,
    ensures
        start_scan(c, target, end, s) == Some(hit),
    decreases hit - s,
{
    if s < hit {
        lemma_start_scan_hit(c, target, end, s + 1, hit);
    }
}

proof fn lemma_start_scan_miss(c: Seq<u64>, target: int, end: int, s: int)
    requires
        forall|q: int| s <= q < end ==> range_sum(c, q, end) != target,
    ensures
        start_scan(c, target, end, s) == None::<int>,
    decreases end - s,
{
    if s < end {
        lemma_start_scan_miss(c, target, end, s + 1);
    }
}

/// The smallest entry of a nonempty run.
pub open spec fn seq_min(s: Seq<u64>) -> int
    decreases s.len(),
{
    if s.len() <= 1 {
        if s.len() == 1 {
            s[0] as int
        } else {
            0
        }
    } else if s[0] <= seq_min(s.drop_first()) {
        s[0] as int
    } else {
        seq_min(s.drop_first())
    }
}

/// The largest entry of a nonempty run.
pub open spec fn seq_max(s: Seq<u64>) -> int
    decreases s.len(),
{
    if s.len() <= 1 {
        if s.len() == 1 {
            s[0] as int
        } else {
            0
        }
    } else if s[0] >= seq_max(s.drop_first()) {
        s[0] as int
    } else {
        seq_max(s.drop_first())
    }
}

impl Stream {
    /// The pair rule at position `index`: true when no two distinct
    /// window entries sum to the entry there.
    pub fn index_is_invalid(&self, index: &usize) -> (r: bool)
        requires
            1 <= *index < self.stream_content@.len(),
            self.preamble_length <= *index,
            sums_fit(self.stream_content@),
        ensures
            r == index_invalid(
                self.stream_content@,
                self.preamble_length as int,
                *index as int,
            ),
    {
        let ghost c = self.stream_content@;
        let i = *index;
        let lo = i - self.preamble_length;
        let mut s = lo;
        while s < i - 1
            invariant
                i == *index,
                lo <= s <= i,
                lo == i - self.preamble_length,
                1 <= i < c.len(),
                c == self.stream_content@,
                sums_fit(c),
                forall|s2: int, e2: int|
                    lo <= s2 < s && s2 < e2 <= i - 1 ==> (#[trigger] c[s2]) + (#[trigger] c[e2])
                        != c[i as int],
            decreases i - s,
        {
            let mut e = s + 1;
            while e < i
                invariant
                    i == *index,
                    s < e <= i,
                    lo <= s < i,
                    lo == i - self.preamble_length,
                    1 <= i < c.len(),
                    c == self.stream_content@,
                    sums_fit(c),
                    forall|e2: int|
                        s < e2 < e ==> c[s as int] + (#[trigger] c[e2]) != c[i as int],
                decreases i - e,
            {
                let s_val = self.stream_content[s];
                let e_val = self.stream_content[e];
                let i_val = self.stream_content[i];
                if s_val + e_val == i_val {
                    proof {
                        let p = self.preamble_length as int;
                        assert(i as int - p <= s as int && (s as int) < e as int && e as int <= i
                            as int - 1 && c[s as int] + c[e as int] == c[i as int]);
                        assert(!index_invalid(c, p, i as int));
                    }
                    return false;
                }
                e = e + 1;
            }
            s = s + 1;
        }
        true
    }

    /// The value at the first position that breaks the pair rule, or
    /// nothing when every position obeys it.
    pub fn find_invalid(&self) -> (r: Option<u64>)
        requires
            self.preamble_length >= 1,
            sums_fit(self.stream_content@),
        ensures
            ({
                let c = self.stream_content@;
                let p = self.preamble_length as int;
                match r {
                    Some(v) => exists|i: int|
                        invalid_scan(c, p, p) == Some(i) && 0 <= i < c.len() && v == c[i],
                    None => invalid_scan(c, p, p) == None::<int>,
                }
            }),
    {
        let ghost c = self.stream_content@;
        let ghost p = self.preamble_length as int;
        let n = self.stream_content.len();
        let mut i = self.preamble_length;
        while i < n
            invariant
                self.preamble_length <= i,
                self.preamble_length >= 1,
                n == c.len(),
                c == self.stream_content@,
                p == self.preamble_length as int,
                sums_fit(c),
                invalid_scan(c, p, p) == invalid_scan(c, p, i as int),
            decreases n - i,
        {
            if self.index_is_invalid(&i) {
                return Some(self.stream_content[i]);
            }
            i = i + 1;
        }
        None
    }
}

/// Adding `target` to any entry stays inside `u64`.
pub open spec fn fits_target(c: Seq<u64>, target: int) -> bool {
    forall|j: int| 0 <= j < c.len() ==> target + (#[trigger] c[j]) <= u64::MAX
}

/// Dropping entries from the front never raises a run's sum.
proof fn lemma_range_sum_start_mono(c: Seq<u64>, s1: int, s2: int, e: int)
    requires
        s1 <= s2,
    ensures
        range_sum(c, s1, e) >= range_sum(c, s2, e),
    decreases s2 - s1,
{
    if s1 < s2 {
        lemma_range_sum_start_mono(c, s1 + 1, s2, e);
        lemma_range_sum_nonneg(c, s1 + 1, e);
    }
}

/// The run of the stream that the contiguous search returns: the one
/// of the first matching end, and for that end the first start.
pub open spec fn matched_run(c: Seq<u64>, target: int) -> Seq<u64> {
    match run_scan(c, target, 1) {
        Some(se) => c.subrange(se.0, se.1),
        None => Seq::empty(),
    }
}

proof fn lemma_start_scan_bounds(c: Seq<u64>, target: int, end: int, s: int, hit: int)
    requires
        start_scan(c, target, end, s) == Some(hit),
    ensures
        s <= hit < end,
        range_sum(c, hit, end) == target,
    decreases end - s,
{
    if s < end && range_sum(c, s, end) != target {
        lemma_start_scan_bounds(c, target, end, s + 1, hit);
    }
}

/// A found run lies inside the stream and is nonempty.
pub proof fn lemma_run_scan_bounds(c: Seq<u64>, target: int, end: int, s: int, e: int)
    requires
        end >= 0,
        run_scan(c, target, end) == Some((s, e)),
    ensures
        0 <= s < e <= c.len(),
        range_sum(c, s, e) == target,
    decreases c.len() + 1 - end,
{
    if end <= c.len() {
        match start_scan(c, target, e, 0) {
            Some(_) => {
            },
            None => {
            },
        }
        if start_scan(c, target, end, 0) is Some {
            lemma_start_scan_bounds(
                c,
                target,
                end,
                0,
                start_scan(c, target, end, 0)->Some_0,
            );
        } else {
            lemma_run_scan_bounds(c, target, end + 1, s, e);
        }
    }
}

impl Stream {
    /// Finds the first contiguous run of entries that sums to
    /// `target`: earliest end first, then earliest start.
    pub fn find_matching_contiguous_numbers(&self, target: &u64) -> (r: Vec<u64>)
        requires
            fits_target(self.stream_content@, *target as int),
            run_scan(self.stream_content@, *target as int, 1) is Some,
        ensures
            r@ == matched_run(self.stream_content@, *target as int),
    {
        let ghost c = self.stream_content@;
        let ghost t = *target as int;
        let n = self.stream_content.len();
        let mut rolling: Vec<(usize, u64)> = Vec::new();
        let mut i: usize = 0;
        while i < n
            invariant
                i <= n,
                n == c.len(),
                c == self.stream_content@,
                t == *target as int,
                fits_target(c, t),
                run_scan(c, t, 1) is Some,
                run_scan(c, t, 1) == run_scan(c, t, i + 1),
                rolling@.len() <= i,
                forall|k: int|
                    0 <= k < rolling@.len() ==> (#[trigger] rolling@[k]).0 == i - rolling@.len()
                        + k,
                forall|k: int|
                    0 <= k < rolling@.len() ==> (#[trigger] rolling@[k]).1 == range_sum(
                        c,
                        i - rolling@.len() + k,
                        i as int,
                    ) && rolling@[k].1 < t,
                forall|s: int|
                    0 <= s < i - rolling@.len() ==> #[trigger] range_sum(c, s, i as int) > t,
            decreases n - i,
        {
            let ghost low = i - rolling@.len();
            let i_val = self.stream_content[i];
            // every tracked run grows by the new entry
            let mut k: usize = 0;
            while k < rolling.len()
                invariant
                    k <= rolling@.len(),
                    i < n == c.len(),
                    c == self.stream_content@,
                    t == *target as int,
                    fits_target(c, t),
                    i_val == c[i as int],
                    low == i - rolling@.len(),
                    0 <= low,
                    forall|q: int|
                        0 <= q < rolling@.len() ==> (#[trigger] rolling@[q]).0 == low + q,
                    forall|q: int|
                        k <= q < rolling@.len() ==> (#[trigger] rolling@[q]).1 == range_sum(
                            c,
                            low + q,
                            i as int,
                        ) && rolling@[q].1 < t,
                    forall|q: int|
                        0 <= q < k ==> (#[trigger] rolling@[q]).1 == range_sum(
                            c,
                            low + q,
                            i + 1,
                        ) && rolling@[q].1 < t + c[i as int],
                decreases rolling@.len() - k,
            {
                let entry = rolling[k];
                proof {
                    lemma_range_sum_extend(c, low + k, i as int);
                }
                rolling.set(k, (entry.0, entry.1 + i_val));
                k = k + 1;
            }
            rolling.push((i, i_val));
            proof {
                lemma_range_sum_extend(c, i as int, i as int);
                assert(range_sum(c, i as int, i as int) == 0);
                assert forall|s: int| 0 <= s < low implies #[trigger] range_sum(c, s, i + 1) > t by {
                    lemma_range_sum_extend(c, s, i as int);
                    lemma_range_sum_nonneg(c, s, i as int);
                }
            }
            // look for a run that hits the target, earliest start first
            let mut f: usize = 0;
            let mut hit: bool = false;
            while !hit && f < rolling.len()
                invariant
                    f <= rolling@.len(),
                    rolling@.len() == i + 1 - low,
                    0 <= low <= i < n == c.len(),
                    c == self.stream_content@,
                    t == *target as int,
                    forall|q: int|
                        0 <= q < rolling@.len() ==> (#[trigger] rolling@[q]).0 == low + q
                            && rolling@[q].1 == range_sum(c, low + q, i + 1),
                    !hit ==> forall|q: int|
                        0 <= q < f ==> #[trigger] range_sum(c, low + q, i + 1) != t,
                    hit ==> f < rolling@.len() && range_sum(c, low + f, i + 1) == t && (
                    forall|q: int| 0 <= q < f ==> #[trigger] range_sum(c, low + q, i + 1) != t),
                decreases rolling@.len() - f + (if hit {
                    0int
                } else {
                    1int
                }),
            {
                if rolling[f].1 == *target {
                    hit = true;
                } else {
                    f = f + 1;
                }
            }
            if hit {
                let s0 = rolling[f].0;
                proof {
                    assert forall|q: int|
                        0 <= q < s0 implies #[trigger] range_sum(c, q, i + 1) != t by {
                        if q < low {
                            lemma_range_sum_extend(c, q, i as int);
                            lemma_range_sum_nonneg(c, q, i as int);
                        } else {
                            assert(range_sum(c, low + (q - low), i + 1) != t);
                        }
                    }
                    lemma_start_scan_hit(c, t, i + 1, 0, s0 as int);
                    assert(run_scan(c, t, i + 1) == Some((s0 as int, i + 1)));
                }
                let mut r: Vec<u64> = Vec::new();
                let mut j: usize = s0;
                while j <= i
                    invariant
                        s0 <= j <= i + 1 <= c.len(),
                        i < n,
                        n == self.stream_content@.len(),
                        c == self.stream_content@,
                        r@ == c.subrange(s0 as int, j as int),
                    decreases i + 1 - j,
                {
                    proof {
                        assert(c.subrange(s0 as int, j + 1) =~= c.subrange(
                            s0 as int,
                            j as int,
                        ).push(c[j as int]));
                    }
                    r.push(self.stream_content[j]);
                    j = j + 1;
                }
                return r;
            }
            proof {
                assert forall|q: int|
                    0 <= q < i + 1 implies #[trigger] range_sum(c, q, i + 1) != t by {
                    if q < low {
                        lemma_range_sum_extend(c, q, i as int);
                        lemma_range_sum_nonneg(c, q, i as int);
                    } else {
                        assert(range_sum(c, low + (q - low), i + 1) != t);
                    }
                }
                lemma_start_scan_miss(c, t, i + 1, 0);
                assert(run_scan(c, t, i + 1) == run_scan(c, t, i + 2));
            }
            // prune runs that already exceed the target; later runs
            // are smaller, so only the front can exceed it
            while rolling.len() > 0 && rolling[0].1 > *target
                invariant
                    c == self.stream_content@,
                    t == *target as int,
                    i < n == c.len(),
                    rolling@.len() <= i + 1,
                    forall|q: int|
                        0 <= q < rolling@.len() ==> (#[trigger] rolling@[q]).0 == i + 1
                            - rolling@.len() + q && rolling@[q].1 == range_sum(
                            c,
                            i + 1 - rolling@.len() + q,
                            i + 1,
                        ) && rolling@[q].1 != t,
                    forall|s: int|
                        0 <= s < i + 1 - rolling@.len() ==> #[trigger] range_sum(c, s, i + 1)
                            > t,
                decreases rolling@.len(),
            {
                rolling.remove(0);
            }
            proof {
                assert forall|q: int|
                    0 <= q < rolling@.len() implies (#[trigger] rolling@[q]).1 < t by {
                    let low2 = i + 1 - rolling@.len();
                    lemma_range_sum_start_mono(c, low2, low2 + q, i + 1);
                    if rolling@.len() > 0 {
                        assert(rolling@[0].1 <= t);
                    }
                }
            }
            i = i + 1;
        }
        proof {
            assert(run_scan(c, t, n + 1) == None::<(int, int)>);
            assert(false);
        }
        Vec::new()
    }
}

/// The smallest entry of a nonempty run is one of its entries.
pub proof fn lemma_seq_min_is_entry(s: Seq<u64>)
    requires
        s.len() >= 1,
    ensures
        exists|j: int| 0 <= j < s.len() && s[j] == seq_min(s),
    decreases s.len(),
{
    if s.len() > 1 {
        lemma_seq_min_is_entry(s.drop_first());
        if s[0] > seq_min(s.drop_first()) {
            let j = choose|j: int|
                0 <= j < s.drop_first().len() && s.drop_first()[j] == seq_min(s.drop_first());
            assert(s[j + 1] == seq_min(s));
        } else {
            assert(s[0] == seq_min(s));
        }
    } else {
        assert(s[0] == seq_min(s));
    }
}

/// The largest entry of a nonempty run is one of its entries.
pub proof fn lemma_seq_max_is_entry(s: Seq<u64>)
    requires
        s.len() >= 1,
    ensures
        exists|j: int| 0 <= j < s.len() && s[j] == seq_max(s),
    decreases s.len(),
{
    if s.len() > 1 {
        lemma_seq_max_is_entry(s.drop_first());
        if s[0] < seq_max(s.drop_first()) {
            let j = choose|j: int|
                0 <= j < s.drop_first().len() && s.drop_first()[j] == seq_max(s.drop_first());
            assert(s[j + 1] == seq_max(s));
        } else {
            assert(s[0] == seq_max(s));
        }
    } else {
        assert(s[0] == seq_max(s));
    }
}

/// The value at the first position breaking the pair rule.
pub open spec fn invalid_value(c: Seq<u64>, p: int) -> int {
    match invalid_scan(c, p, p) {
        Some(i) => c[i] as int,
        None => 0,
    }
}

/// Every line of the listing is a decimal entry that fits a `u64`.
pub open spec fn wf_stream_listing(s: Seq<char>) -> bool {
    forall|i: int|
        0 <= i < text::spec_lines(s).len() ==> text::is_digits(#[trigger] text::spec_lines(s)[i])
            && text::dec_value(text::spec_lines(s)[i]) <= u64::MAX
}

/// The entries of the listing, in input order.
pub open spec fn stream_values(s: Seq<char>) -> Seq<u64> {
    text::spec_lines(s).map_values(|l: Seq<char>| text::dec_value(l) as u64)
}

impl Stream {
    /// Parses one entry per line, with the given window length.
    pub fn parse(input: &str, preamble_length: usize) -> (r: Stream)
        requires
            wf_stream_listing(input@),
        ensures
            r.stream_content@ == stream_values(input@),
            r.preamble_length == preamble_length,
    {
        let lines = text::split_lines(input);
        let mut content: Vec<u64> = Vec::new();
        let mut i: usize = 0;
        while i < lines.len()
            invariant
                i <= lines@.len(),
                lines.deep_view() == text::spec_lines(input@),
                wf_stream_listing(input@),
                content@.len() == i,
                forall|j: int| 0 <= j < i ==> content@[j] == stream_values(input@)[j],
            decreases lines@.len() - i,
        {
            proof {
                assert(lines@[i as int]@ == lines.deep_view()[i as int]);
            }
            let line = lines[i].as_str();
            let n = line.unicode_len();
            proof {
                assert(line@.subrange(0, n as int) =~= line@);
            }
            let value = match text::parse_u64_range(line, 0, n) {
                Some(v) => v,
                None => {
                    proof {
                        assert(false);
                    }
                    0
                },
            };
            content.push(value);
            i = i + 1;
        }
        proof {
            assert(content@ =~= stream_values(input@));
        }
        Stream { preamble_length, stream_content: content }
    }

    /// The weakness: smallest plus largest entry of the first
    /// contiguous run summing to the first invalid entry.
    pub fn find_weakness(&self) -> (r: u64)
        requires
            self.preamble_length >= 1,
            sums_fit(self.stream_content@),
            invalid_scan(
                self.stream_content@,
                self.preamble_length as int,
                self.preamble_length as int,
            ) is Some,
            fits_target(
                self.stream_content@,
                invalid_value(self.stream_content@, self.preamble_length as int),
            ),
            run_scan(
                self.stream_content@,
                invalid_value(self.stream_content@, self.preamble_length as int),
                1,
            ) is Some,
        ensures
            ({
                let run = matched_run(
                    self.stream_content@,
                    invalid_value(self.stream_content@, self.preamble_length as int),
                );
                r == seq_min(run) + seq_max(run)
            }),
    {
        let ghost c = self.stream_content@;
        let ghost p = self.preamble_length as int;
        let ghost t = invalid_value(c, p);
        let invalid_num = match self.find_invalid() {
            Some(v) => v,
            None => {
                proof {
                    assert(false);
                }
                0
            },
        };
        let run = self.find_matching_contiguous_numbers(&invalid_num);
        proof {
            let se = run_scan(c, t, 1)->Some_0;
            lemma_run_scan_bounds(c, t, 1, se.0, se.1);
            assert(run@.len() >= 1);
        }
        let n = run.len();
        let mut lowest: u64 = run[n - 1];
        let mut highest: u64 = run[n - 1];
        let mut k: usize = n - 1;
        proof {
            assert(run@.skip(n - 1).len() == 1);
            assert(run@.skip(n - 1)[0] == run@[n - 1]);
        }
        while k > 0
            invariant
                k < n,
                n == run@.len(),
                lowest == seq_min(run@.skip(k as int)),
                highest == seq_max(run@.skip(k as int)),
            decreases k,
        {
            k = k - 1;
            proof {
                assert(run@.skip(k as int).drop_first() =~= run@.skip(k + 1));
                assert(run@.skip(k as int)[0] == run@[k as int]);
                assert(run@.skip(k as int).len() > 1);
            }
            let v = run[k];
            if v < lowest {
                lowest = v;
            }
            if v > highest {
                highest = v;
            }
        }
        proof {
            assert(run@.skip(0) =~= run@);
            lemma_seq_min_is_entry(run@);
            lemma_seq_max_is_entry(run@);
            let se = run_scan(c, t, 1)->Some_0;
            let a = choose|j: int| 0 <= j < run@.len() && run@[j] == seq_min(run@);
            let b = choose|j: int| 0 <= j < run@.len() && run@[j] == seq_max(run@);
            assert(run@[a] == c[se.0 + a]);
            assert(run@[b] == c[se.0 + b]);
        }
        lowest + highest
    }
}

/// Answer of the first task: the first entry of the listing, read
/// with a window of 25, that no two distinct window entries sum to.
pub fn task1(input: &str) -> (r: u64)
    requires
        wf_stream_listing(input@),
        sums_fit(stream_values(input@)),
        invalid_scan(stream_values(input@), 25, 25) is Some,
    ensures
        exists|i: int|
            invalid_scan(stream_values(input@), 25, 25) == Some(i) && 0 <= i < stream_values(
                input@,
            ).len() && r == stream_values(input@)[i],
{
    let parsed = Stream::parse(input, 25);
    match parsed.find_invalid() {
        Some(v) => v,
        None => {
            proof {
                assert(false);
            }
            0
        },
    }
}

/// Answer of the second task: the weakness of the listing, read with
/// a window of 25.
pub fn task2(input: &str) -> (r: u64)
    requires
        wf_stream_listing(input@),
        sums_fit(stream_values(input@)),
        invalid_scan(stream_values(input@), 25, 25) is Some,
        fits_target(stream_values(input@), invalid_value(stream_values(input@), 25)),
        run_scan(stream_values(input@), invalid_value(stream_values(input@), 25), 1) is Some,
    ensures
        ({
            let run = matched_run(stream_values(input@), invalid_value(stream_values(input@), 25));
            r == seq_min(run) + seq_max(run)
        }),
{
    let parsed = Stream::parse(input, 25);
    parsed.find_weakness()
}

/// The calendar day this module solves.
pub struct Day9 {}

impl Day9 {
    /// The day's number.
    pub fn get_day_number(&self) -> (r: usize)
        ensures
            r == 9,
    {
        9
    }
}

} // verus!
