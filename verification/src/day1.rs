//! Expense report search: find some entries of a list (with
//! repetition, any order) that sum to a target, and report their
//! product.  The first task combines two entries, the second three.

use vstd::prelude::*;
use crate::text;

verus! {

/// Sum of a pick of entries.
pub open spec fn seq_sum(s: Seq<u32>) -> int
    decreases s.len(),
{
    if s.len() == 0 {
        0
    } else {
        s[0] + seq_sum(s.drop_first())
    }
}

/// Product of a pick of entries.
pub open spec fn seq_product(s: Seq<u32>) -> int
    decreases s.len(),
{
    if s.len() == 0 {
        1
    } else {
        seq_product(s.drop_last()) * s.last()
    }
}

/// Every entry of `pick` occurs in `input`.
pub open spec fn picked_from(input: Seq<u32>, pick: Seq<u32>) -> bool {
    forall|i: int| 0 <= i < pick.len() ==> input.contains(#[trigger] pick[i])
}

/// A choice of `n` entries of `input`, repetition allowed, that sums
/// to `target`.
pub open spec fn is_solution(input: Seq<u32>, target: int, n: int, pick: Seq<u32>) -> bool {
    pick.len() == n && picked_from(input, pick) && seq_sum(pick) == target
}

pub proof fn lemma_product_nonneg(s: Seq<u32>)
    ensures
        seq_product(s) >= 0,
    decreases s.len(),
{
    if s.len() > 0 {
        lemma_product_nonneg(s.drop_last());
        assert(seq_product(s.drop_last()) * s.last() >= 0) by (nonlinear_arith)
            requires
                seq_product(s.drop_last()) >= 0,
                s.last() >= 0,
        ;
    }
}

/// With no zero entry, a pick is worth at least any of its prefixes.
pub proof fn lemma_product_prefix(s: Seq<u32>, n: int)
    requires
        0 <= n <= s.len(),
        forall|j: int| 0 <= j < s.len() ==> s[j] >= 1,
    ensures
        seq_product(s.take(n)) <= seq_product(s),
    decreases s.len(),
{
    if n < s.len() {
        assert(s.take(n) =~= s.drop_last().take(n));
        lemma_product_prefix(s.drop_last(), n);
        lemma_product_nonneg(s.drop_last());
        assert(seq_product(s.drop_last()) * s.last() >= seq_product(s.drop_last()))
            by (nonlinear_arith)
            requires
                seq_product(s.drop_last()) >= 0,
                s.last() >= 1,
        ;
    } else {
        assert(s.take(n) =~= s);
    }
}

/// A pick with a zero entry is worth zero.
pub proof fn lemma_product_zero(s: Seq<u32>, j: int)
    requires
        0 <= j < s.len(),
        s[j] == 0,
    ensures
        seq_product(s) == 0,
    decreases s.len(),
{
    if j == s.len() - 1 {
        assert(s.last() == 0);
        assert(seq_product(s) == seq_product(s.drop_last()) * 0);
    } else {
        lemma_product_zero(s.drop_last(), j);
        assert(seq_product(s) == 0 * s.last());
    }
}

/// Multiplies the entries of a pick.
fn product_of(chosen: &Vec<u32>) -> (r: u64)
    requires
        seq_product(chosen@) <= u64::MAX,
    ensures
        r == seq_product(chosen@),
{
    let n = chosen.len();
    let mut i: usize = 0;
    while i < n
        invariant
            i <= n,
            n == chosen@.len(),
            forall|j: int| 0 <= j < i ==> chosen@[j] >= 1,
        decreases n - i,
    {
        if chosen[i] == 0 {
            proof {
                lemma_product_zero(chosen@, i as int);
            }
            return 0;
        }
        i = i + 1;
    }
    let mut p: u64 = 1;
    let mut k: usize = 0;
    while k < n
        invariant
            k <= n,
            n == chosen@.len(),
            forall|j: int| 0 <= j < n ==> chosen@[j] >= 1,
            seq_product(chosen@) <= u64::MAX,
            p == seq_product(chosen@.take(k as int)),
        decreases n - k,
    {
        proof {
            assert(chosen@.take(k + 1).drop_last() =~= chosen@.take(k as int));
            assert(chosen@.take(k + 1).last() == chosen@[k as int]);
            lemma_product_prefix(chosen@, k + 1);
            lemma_product_nonneg(chosen@.take(k as int));
        }
        p = p * (chosen[k] as u64);
        k = k + 1;
    }
    proof {
        assert(chosen@.take(n as int) =~= chosen@);
    }
    p
}

/// Tries every way to fill the remaining `slots` with entries of
/// `input`, on top of the already chosen prefix.
fn search(input: &Vec<u32>, target: u32, slots: usize, sum_acc: u64, chosen: &Vec<u32>) -> (r:
    Option<u64>)
    requires
        sum_acc + slots * 0xFFFF_FFFFu64 <= u64::MAX,
        sum_acc == seq_sum(chosen@),
        picked_from(input@, chosen@),
        forall|ext: Seq<u32>|
            ext.len() == slots && picked_from(input@, ext) && sum_acc + seq_sum(ext) == target
                ==> seq_product(#[trigger] (chosen@ + ext)) <= u64::MAX,
    ensures
        match r {
            Some(p) => exists|ext: Seq<u32>|
                ext.len() == slots && picked_from(input@, ext) && sum_acc + (#[trigger] seq_sum(
                    ext,
                )) == target && p == seq_product(chosen@ + ext),
            None => forall|ext: Seq<u32>|
                ext.len() == slots && picked_from(input@, ext) ==> sum_acc + (#[trigger] seq_sum(
                    ext,
                )) != target,
        },
    decreases slots,
{
    if slots == 0 {
        if sum_acc == target as u64 {
            proof {
                assert(chosen@ + Seq::<u32>::empty() =~= chosen@);
                assert(seq_sum(Seq::<u32>::empty()) == 0);
            }
            let p = product_of(chosen);
            proof {
                let ext = Seq::<u32>::empty();
                assert(ext.len() == 0 && picked_from(input@, ext) && sum_acc + seq_sum(ext)
                    == target && p == seq_product(chosen@ + ext));
            }
            Some(p)
        } else {
            proof {
                assert forall|ext: Seq<u32>|
                    ext.len() == slots && picked_from(input@, ext) implies sum_acc + (
                #[trigger] seq_sum(ext)) != target by {
                    assert(ext =~= Seq::<u32>::empty());
                }
            }
            None
        }
    } else {
        let n = input.len();
        let mut i: usize = 0;
        while i < n
            invariant
                i <= n,
                n == input@.len(),
                slots >= 1,
                sum_acc + slots * 0xFFFF_FFFFu64 <= u64::MAX,
                sum_acc == seq_sum(chosen@),
                picked_from(input@, chosen@),
                forall|ext: Seq<u32>|
                    ext.len() == slots && picked_from(input@, ext) && sum_acc + seq_sum(ext)
                        == target ==> seq_product(#[trigger] (chosen@ + ext)) <= u64::MAX,
                forall|ext: Seq<u32>|
                    ext.len() == slots && picked_from(input@, ext) && input@.take(
                        i as int,
                    ).contains(ext[0]) ==> sum_acc + (#[trigger] seq_sum(ext)) != target,
            decreases n - i,
        {
            let v = input[i];
            let mut extended: Vec<u32> = Vec::new();
            let mut t: usize = 0;
            while t < chosen.len()
                invariant
                    t <= chosen@.len(),
                    extended@ == chosen@.take(t as int),
                decreases chosen@.len() - t,
            {
                proof {
                    assert(chosen@.take(t + 1) =~= chosen@.take(t as int).push(chosen@[t as int]));
                }
                extended.push(chosen[t]);
                t = t + 1;
            }
            proof {
                assert(extended@ =~= chosen@);
            }
            extended.push(v);
            let ghost head = seq![v];
            proof {
                assert(extended@ =~= chosen@ + head);
                // the sum of the longer prefix
                assert(seq_sum(chosen@ + head) == sum_acc + v) by {
                    lemma_sum_push(chosen@, v);
                }
                assert(picked_from(input@, extended@));
                // the product bound carries to the extended prefix
                assert forall|ext2: Seq<u32>|
                    ext2.len() == slots - 1 && picked_from(input@, ext2) && sum_acc + v + seq_sum(
                        ext2,
                    ) == target implies seq_product(#[trigger] (extended@ + ext2))
                    <= u64::MAX by {
                    let whole = head + ext2;
                    assert(extended@ + ext2 =~= chosen@ + whole);
                    assert(whole.drop_first() =~= ext2);
                    assert(seq_sum(whole) == v + seq_sum(ext2));
                    assert(whole[0] == v && input@.contains(v));
                    assert(picked_from(input@, whole));
                }
            }
            let sub = search(input, target, slots - 1, sum_acc + v as u64, &extended);
            match sub {
                Some(p) => {
                    proof {
                        let ext2 = choose|ext2: Seq<u32>|
                            ext2.len() == slots - 1 && picked_from(input@, ext2) && (sum_acc
                                + v as u64) + (#[trigger] seq_sum(ext2)) == target && p
                                == seq_product(extended@ + ext2);
                        let ext = head + ext2;
                        assert(ext.drop_first() =~= ext2);
                        assert(seq_sum(ext) == v + seq_sum(ext2));
                        assert(chosen@ + ext =~= extended@ + ext2);
                        assert(ext[0] == v && input@.contains(v));
                        assert(picked_from(input@, ext));
                        assert(ext.len() == slots && picked_from(input@, ext) && sum_acc
                            + seq_sum(ext) == target && p == seq_product(chosen@ + ext));
                    }
                    return Some(p);
                },
                None => {
                    proof {
                        assert forall|ext: Seq<u32>|
                            ext.len() == slots && picked_from(input@, ext) && input@.take(
                                i + 1,
                            ).contains(ext[0]) implies sum_acc + (#[trigger] seq_sum(ext))
                            != target by {
                            if !input@.take(i as int).contains(ext[0]) {
                                // the first entry is input[i] itself
                                let tk = input@.take(i + 1);
                                let w = choose|w: int|
                                    0 <= w < tk.len() && (#[trigger] tk[w]) == ext[0];
                                if w < i {
                                    assert(input@.take(i as int)[w] == tk[w]);
                                    assert(input@.take(i as int).contains(ext[0]));
                                }
                                assert(ext[0] == v);
                                let rest = ext.drop_first();
                                assert(rest.len() == slots - 1);
                                assert(picked_from(input@, rest)) by {
                                    assert forall|q: int|
                                        0 <= q < rest.len() implies input@.contains(
                                        #[trigger] rest[q],
                                    ) by {
                                        assert(rest[q] == ext[q + 1]);
                                    }
                                }
                                assert(seq_sum(ext) == v + seq_sum(rest));
                            }
                        }
                    }
                },
            }
            i = i + 1;
        }
        proof {
            assert(input@.take(n as int) =~= input@);
            assert forall|ext: Seq<u32>|
                ext.len() == slots && picked_from(input@, ext) implies sum_acc + (
            #[trigger] seq_sum(ext)) != target by {
                assert(input@.contains(ext[0]));
            }
        }
        None
    }
}

/// The sum of a pick grows by a pushed entry.
proof fn lemma_sum_push(s: Seq<u32>, v: u32)
    ensures
        seq_sum(s + seq![v]) == seq_sum(s) + v,
    decreases s.len(),
{
    if s.len() == 0 {
        assert(s + seq![v] =~= seq![v]);
        assert(seq![v].drop_first() =~= Seq::<u32>::empty());
        assert(seq_sum(Seq::<u32>::empty()) == 0);
        assert(seq_sum(seq![v]) == seq![v][0] + seq_sum(seq![v].drop_first()));
    } else {
        assert((s + seq![v]).drop_first() =~= s.drop_first() + seq![v]);
        lemma_sum_push(s.drop_first(), v);
        assert((s + seq![v])[0] == s[0]);
        assert(seq_sum(s + seq![v]) == s[0] + seq_sum(s.drop_first() + seq![v]));
    }
}

/// Finds a pick of `num_elems` entries of `input` (repetition
/// allowed) that sums to `target`, and returns its product; reports
/// nothing exactly when no such pick exists.
pub fn find_first_to_sum(input: &Vec<u32>, target: u32, num_elems: usize) -> (r: Option<u64>)
    requires
        num_elems <= u32::MAX,
        forall|pick: Seq<u32>|
            #[trigger] is_solution(input@, target as int, num_elems as int, pick) ==> seq_product(
                pick,
            ) <= u64::MAX,
    ensures
        match r {
            Some(p) => exists|pick: Seq<u32>|
                #[trigger] is_solution(input@, target as int, num_elems as int, pick)
                    && seq_product(pick) == p,
            None => forall|pick: Seq<u32>|
                !(#[trigger] is_solution(input@, target as int, num_elems as int, pick)),
        },
{
    let chosen: Vec<u32> = Vec::new();
    proof {
        assert(seq_sum(Seq::<u32>::empty()) == 0);
        assert(num_elems * 0xFFFF_FFFFu64 <= u64::MAX) by (nonlinear_arith)
            requires
                num_elems <= u32::MAX,
        ;
        assert forall|ext: Seq<u32>|
            ext.len() == num_elems && picked_from(input@, ext) && 0 + seq_sum(ext)
                == target implies seq_product(#[trigger] (Seq::<u32>::empty() + ext))
            <= u64::MAX by {
            assert(Seq::<u32>::empty() + ext =~= ext);
            assert(is_solution(input@, target as int, num_elems as int, ext));
        }
    }
    let r = search(input, target, num_elems, 0, &chosen);
    proof {
        match r {
            Some(p) => {
                let ext = choose|ext: Seq<u32>|
                    ext.len() == num_elems && picked_from(input@, ext) && 0 + (
                    #[trigger] seq_sum(ext)) == target && p == seq_product(
                        Seq::<u32>::empty() + ext,
                    );
                assert(Seq::<u32>::empty() + ext =~= ext);
                assert(is_solution(input@, target as int, num_elems as int, ext));
            },
            None => {
                assert forall|pick: Seq<u32>|
                    !(#[trigger] is_solution(input@, target as int, num_elems as int, pick)) by {
                    if pick.len() == num_elems && picked_from(input@, pick) {
                        assert(0 + seq_sum(pick) != target);
                    }
                }
            },
        }
    }
    r
}

/// Every whitespace-separated token of the report is a decimal entry
/// that fits a `u32`.
pub open spec fn wf_report(s: Seq<char>) -> bool {
    forall|i: int|
        0 <= i < text::tokens_of(s).len() ==> text::is_digits(#[trigger] text::tokens_of(s)[i])
            && text::dec_value(text::tokens_of(s)[i]) <= u32::MAX
}

/// The entries of the report, in input order.
pub open spec fn report_values(s: Seq<char>) -> Seq<u32> {
    text::tokens_of(s).map_values(|t: Seq<char>| text::dec_value(t) as u32)
}

/// Parses the whitespace-separated entries of the report.
pub fn get_input(input: &str) -> (r: Vec<u32>)
    requires
        wf_report(input@),
    ensures
        r@ == report_values(input@),
{
    let tokens = text::split_tokens(input);
    let mut r: Vec<u32> = Vec::new();
    let mut i: usize = 0;
    while i < tokens.len()
        invariant
            i <= tokens@.len(),
            tokens.deep_view() == text::tokens_of(input@),
            wf_report(input@),
            r@.len() == i,
            forall|j: int| 0 <= j < i ==> r@[j] == report_values(input@)[j],
        decreases tokens@.len() - i,
    {
        proof {
            assert(tokens@[i as int]@ == tokens.deep_view()[i as int]);
        }
        let token = tokens[i].as_str();
        let n = token.unicode_len();
        proof {
            assert(token@.subrange(0, n as int) =~= token@);
        }
        let value = match text::parse_u64_range(token, 0, n) {
            Some(v) => v,
            None => {
                proof {
                    assert(false);
                }
                0
            },
        };
        r.push(value as u32);
        i = i + 1;
    }
    proof {
        assert(r@ =~= report_values(input@));
    }
    r
}

/// Answer of a task: the product of some `elems` report entries that
/// sum to 2020 — the report is promised to contain such a pick.
pub fn task(input: &str, elems: usize) -> (r: u64)
    requires
        wf_report(input@),
        elems <= u32::MAX,
        forall|pick: Seq<u32>|
            #[trigger] is_solution(report_values(input@), 2020, elems as int, pick)
                ==> seq_product(pick) <= u64::MAX,
        exists|pick: Seq<u32>|
            #[trigger] is_solution(report_values(input@), 2020, elems as int, pick),
    ensures
        exists|pick: Seq<u32>|
            #[trigger] is_solution(report_values(input@), 2020, elems as int, pick)
                && seq_product(pick) == r,
{
    let entries = get_input(input);
    let found = find_first_to_sum(&entries, 2020, elems);
    match found {
        Some(p) => p,
        None => {
            proof {
                assert(false);
            }
            0
        },
    }
}

/// The calendar day this module solves.
pub struct Day1 {}

impl Day1 {
    /// The day's number.
    pub fn get_day_number(&self) -> (r: usize)
        ensures
            r == 1,
    {
        1
    }
}

} // verus!
