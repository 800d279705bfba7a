//! Customs answer counting: the input splits into groups at empty
//! lines; each line of a group holds one person's answers.  The
//! first task sums, over the groups, the answers anyone gave; the
//! second the answers everyone in the group gave.

use vstd::prelude::*;
use vstd::string::StrSliceExecFns;
use crate::text;

verus! {

/// The answers anyone in the group gave: its characters, newlines
/// aside.
pub open spec fn any_answers(g: Seq<char>) -> Set<char> {
    Set::new(|c: char| g.contains(c) && c != '\n')
}

/// The answers everyone in the group gave: characters on every line.
pub open spec fn all_answers(g: Seq<char>) -> Set<char> {
    Set::new(
        |c: char|
            text::spec_lines(g).len() > 0 && forall|k: int|
                0 <= k < text::spec_lines(g).len() ==> (#[trigger] text::spec_lines(g)[k]).contains(
                    c,
                ),
    )
}

/// Sum of the anyone-counts of the groups from `i` on.
pub open spec fn any_total(s: Seq<char>, i: int) -> int
    decreases text::groups_of(s).len() - i,
{
    if i < 0 || i >= text::groups_of(s).len() {
        0
    } else {
        any_answers(text::groups_of(s)[i]).len() + any_total(s, i + 1)
    }
}

/// Sum of the everyone-counts of the groups from `i` on.
pub open spec fn all_total(s: Seq<char>, i: int) -> int
    decreases text::groups_of(s).len() - i,
{
    if i < 0 || i >= text::groups_of(s).len() {
        0
    } else {
        all_answers(text::groups_of(s)[i]).len() + all_total(s, i + 1)
    }
}

proof fn lemma_any_total_nonneg(s: Seq<char>, i: int)
    ensures
        any_total(s, i) >= 0,
    decreases text::groups_of(s).len() - i,
{
    if 0 <= i < text::groups_of(s).len() {
        lemma_any_total_nonneg(s, i + 1);
    }
}

proof fn lemma_all_total_nonneg(s: Seq<char>, i: int)
    ensures
        all_total(s, i) >= 0,
    decreases text::groups_of(s).len() - i,
{
    if 0 <= i < text::groups_of(s).len() {
        lemma_all_total_nonneg(s, i + 1);
    }
}

/// Splits the input into its groups.
pub fn get_input(input: &str) -> (r: Vec<String>)
    ensures
        r.deep_view() == text::groups_of(input@),
{
    text::split_groups(input)
}

/// Counts the distinct non-newline characters of a group.
fn count_any(group: &str) -> (r: usize)
    ensures
        r == any_answers(group@).len(),
        any_answers(group@).finite(),
{
    let g = group;
    let n = g.unicode_len();
    let mut count: usize = 0;
    let mut i: usize = 0;
    proof {
        assert(Set::new(|c: char| g@.take(0).contains(c) && c != '\n') =~= Set::<char>::empty());
    }
    while i < n
        invariant
            i <= n,
            n == g@.len(),
            count <= i,
            Set::new(|c: char| g@.take(i as int).contains(c) && c != '\n').finite(),
            count == Set::new(|c: char| g@.take(i as int).contains(c) && c != '\n').len(),
        decreases n - i,
    {
        let ghost before = Set::new(|c: char| g@.take(i as int).contains(c) && c != '\n');
        let ghost after = Set::new(|c: char| g@.take(i + 1).contains(c) && c != '\n');
        let c = g.get_char(i);
        let mut seen: bool = false;
        let mut j: usize = 0;
        while !seen && j < i
            invariant
                j <= i < n,
                n == g@.len(),
                c == g@[i as int],
                seen ==> g@.take(i as int).contains(c),
                !seen ==> forall|q: int| 0 <= q < j ==> g@[q] != c,
            decreases i - j + (if seen {
                0int
            } else {
                1int
            }),
        {
            if g.get_char(j) == c {
                proof {
                    assert(g@.take(i as int)[j as int] == c);
                }
                seen = true;
            } else {
                j = j + 1;
            }
        }
        proof {
            assert(g@.take(i + 1) =~= g@.take(i as int).push(c));
            if seen || c == '\n' {
                assert forall|x: char| after.contains(x) implies before.contains(x) by {
                    if !g@.take(i as int).contains(x) {
                        assert(g@.take(i + 1).contains(x));
                        let q = choose|q: int|
                            0 <= q < g@.take(i + 1).len() && (#[trigger] g@.take(i + 1)[q]) == x;
                        assert(q == i);
                    }
                }
                assert(after =~= before);
            } else {
                assert(!before.contains(c)) by {
                    if g@.take(i as int).contains(c) {
                        let q = choose|q: int|
                            0 <= q < g@.take(i as int).len() && (#[trigger] g@.take(i as int)[q])
                                == c;
                    }
                }
                assert(g@.take(i + 1).contains(c)) by {
                    assert(g@.take(i + 1)[i as int] == c);
                }
                assert forall|x: char| after.contains(x) implies before.insert(c).contains(x) by {
                    if x != c && !g@.take(i as int).contains(x) {
                        let q = choose|q: int|
                            0 <= q < g@.take(i + 1).len() && (#[trigger] g@.take(i + 1)[q]) == x;
                        assert(q == i);
                    }
                }
                assert forall|x: char| before.insert(c).contains(x) implies after.contains(x) by {
                    if x != c {
                        let q = choose|q: int|
                            0 <= q < g@.take(i as int).len() && (#[trigger] g@.take(i as int)[q])
                                == x;
                        assert(g@.take(i + 1)[q] == x);
                    }
                }
                assert(after =~= before.insert(c));
            }
        }
        if !seen && c != '\n' {
            count = count + 1;
        }
        i = i + 1;
    }
    proof {
        assert(g@.take(n as int) =~= g@);
        assert(Set::new(|c: char| g@.take(n as int).contains(c) && c != '\n') =~= any_answers(
            g@,
        ));
    }
    count
}

/// Counts the characters present on every line of a group.
fn count_all(group: &str) -> (r: usize)
    requires
        text::spec_lines(group@).len() >= 1,
    ensures
        r == all_answers(group@).len(),
{
    let lines = text::split_lines(group);
    let first = lines[0].as_str();
    proof {
        assert(lines@[0]@ == lines.deep_view()[0]);
    }
    let n = first.unicode_len();
    let mut count: usize = 0;
    let mut i: usize = 0;
    proof {
        assert(Set::new(
            |c: char| first@.take(0).contains(c) && all_answers(group@).contains(c),
        ) =~= Set::<char>::empty());
    }
    while i < n
        invariant
            i <= n,
            n == first@.len(),
            first@ == text::spec_lines(group@)[0],
            lines.deep_view() == text::spec_lines(group@),
            lines@.len() >= 1,
            count <= i,
            Set::new(
                |c: char| first@.take(i as int).contains(c) && all_answers(group@).contains(c),
            ).finite(),
            count == Set::new(
                |c: char| first@.take(i as int).contains(c) && all_answers(group@).contains(c),
            ).len(),
        decreases n - i,
    {
        let ghost before = Set::new(
            |c: char| first@.take(i as int).contains(c) && all_answers(group@).contains(c),
        );
        let ghost after = Set::new(
            |c: char| first@.take(i + 1).contains(c) && all_answers(group@).contains(c),
        );
        let c = first.get_char(i);
        // only the first occurrence within the first line counts
        let mut seen: bool = false;
        let mut j: usize = 0;
        while !seen && j < i
            invariant
                j <= i < n,
                n == first@.len(),
                c == first@[i as int],
                seen ==> first@.take(i as int).contains(c),
                !seen ==> forall|q: int| 0 <= q < j ==> first@[q] != c,
            decreases i - j + (if seen {
                0int
            } else {
                1int
            }),
        {
            if first.get_char(j) == c {
                proof {
                    assert(first@.take(i as int)[j as int] == c);
                }
                seen = true;
            } else {
                j = j + 1;
            }
        }
        let mut everywhere: bool = true;
        if !seen {
            // check the remaining lines for the character
            let mut k: usize = 1;
            while everywhere && k < lines.len()
                invariant
                    1 <= k <= lines@.len(),
                    lines.deep_view() == text::spec_lines(group@),
                    everywhere ==> forall|t: int|
                        1 <= t < k ==> (#[trigger] text::spec_lines(group@)[t]).contains(c),
                    !everywhere ==> exists|t: int|
                        1 <= t < lines@.len() && !(#[trigger] text::spec_lines(group@)[t]).contains(
                            c,
                        ),
                decreases lines@.len() - k + (if everywhere {
                    1int
                } else {
                    0int
                }),
            {
                proof {
                    assert(lines@[k as int]@ == lines.deep_view()[k as int]);
                }
                let line = lines[k].as_str();
                let m = line.unicode_len();
                let mut found: bool = false;
                let mut q: usize = 0;
                while !found && q < m
                    invariant
                        q <= m,
                        m == line@.len(),
                        found ==> line@.contains(c),
                        !found ==> forall|w: int| 0 <= w < q ==> line@[w] != c,
                    decreases m - q + (if found {
                        0int
                    } else {
                        1int
                    }),
                {
                    if line.get_char(q) == c {
                        proof {
                            assert(line@[q as int] == c);
                        }
                        found = true;
                    } else {
                        q = q + 1;
                    }
                }
                if found {
                    k = k + 1;
                } else {
                    proof {
                        if line@.contains(c) {
                            let w = choose|w: int|
                                0 <= w < line@.len() && (#[trigger] line@[w]) == c;
                        }
                        assert(!text::spec_lines(group@)[k as int].contains(c));
                    }
                    everywhere = false;
                }
            }
        }
        proof {
            assert(first@.take(i + 1) =~= first@.take(i as int).push(c));
            if seen {
                assert forall|x: char| after.contains(x) implies before.contains(x) by {
                    if !first@.take(i as int).contains(x) {
                        let q2 = choose|q2: int|
                            0 <= q2 < first@.take(i + 1).len() && (#[trigger] first@.take(i + 1)[q2]) == x;
                        assert(q2 == i);
                    }
                }
                assert(after =~= before);
            } else {
                assert(!before.contains(c)) by {
                    if first@.take(i as int).contains(c) {
                        let q2 = choose|q2: int|
                            0 <= q2 < first@.take(i as int).len() && (#[trigger] first@.take(
                                i as int,
                            )[q2]) == c;
                    }
                }
                if everywhere {
                    assert(all_answers(group@).contains(c)) by {
                        assert(first@.contains(c)) by {
                            assert(first@[i as int] == c);
                        }
                        assert forall|t: int|
                            0 <= t < text::spec_lines(group@).len() implies (
                        #[trigger] text::spec_lines(group@)[t]).contains(c) by {
                            if t == 0 {
                                assert(text::spec_lines(group@)[0].contains(c));
                            }
                        }
                    }
                    assert(first@.take(i + 1).contains(c)) by {
                        assert(first@.take(i + 1)[i as int] == c);
                    }
                    assert forall|x: char|
                        after.contains(x) implies before.insert(c).contains(x) by {
                        if x != c && !first@.take(i as int).contains(x) {
                            let q2 = choose|q2: int|
                                0 <= q2 < first@.take(i + 1).len() && (#[trigger] first@.take(
                                    i + 1,
                                )[q2]) == x;
                            assert(q2 == i);
                        }
                    }
                    assert forall|x: char|
                        before.insert(c).contains(x) implies after.contains(x) by {
                        if x != c {
                            let q2 = choose|q2: int|
                                0 <= q2 < first@.take(i as int).len() && (#[trigger] first@.take(
                                    i as int,
                                )[q2]) == x;
                            assert(first@.take(i + 1)[q2] == x);
                        }
                    }
                    assert(after =~= before.insert(c));
                } else {
                    assert(!all_answers(group@).contains(c));
                    assert forall|x: char| after.contains(x) implies before.contains(x) by {
                        if !first@.take(i as int).contains(x) {
                            let q2 = choose|q2: int|
                                0 <= q2 < first@.take(i + 1).len() && (#[trigger] first@.take(
                                    i + 1,
                                )[q2]) == x;
                            assert(q2 == i);
                        }
                    }
                    assert(after =~= before);
                }
            }
        }
        if !seen && everywhere {
            count = count + 1;
        }
        i = i + 1;
    }
    proof {
        assert(first@.take(n as int) =~= first@);
        assert forall|x: char|
            all_answers(group@).contains(x) implies first@.contains(x) by {
            assert(text::spec_lines(group@)[0].contains(x));
        }
        assert(Set::new(|c: char| first@.contains(c) && all_answers(group@).contains(c))
            =~= all_answers(group@));
    }
    count
}

/// Answer of the first task: over all groups, how many distinct
/// questions anyone of the group answered.
pub fn task1(input: &str) -> (r: usize)
    requires
        any_total(input@, 0) <= usize::MAX,
    ensures
        r == any_total(input@, 0),
{
    let groups = get_input(input);
    let mut total: usize = 0;
    let mut i: usize = 0;
    while i < groups.len()
        invariant
            i <= groups@.len(),
            groups.deep_view() == text::groups_of(input@),
            any_total(input@, 0) <= usize::MAX,
            total + any_total(input@, i as int) == any_total(input@, 0),
            total >= 0,
        decreases groups@.len() - i,
    {
        proof {
            assert(groups@[i as int]@ == groups.deep_view()[i as int]);
            lemma_any_total_nonneg(input@, i + 1);
        }
        let c = count_any(groups[i].as_str());
        total = total + c;
        i = i + 1;
    }
    total
}

/// Answer of the second task: over all groups, how many questions
/// everyone of the group answered.
pub fn task2(input: &str) -> (r: usize)
    requires
        all_total(input@, 0) <= usize::MAX,
        forall|i: int|
            0 <= i < text::groups_of(input@).len() ==> text::spec_lines(
                #[trigger] text::groups_of(input@)[i],
            ).len() >= 1,
    ensures
        r == all_total(input@, 0),
{
    let groups = get_input(input);
    let mut total: usize = 0;
    let mut i: usize = 0;
    while i < groups.len()
        invariant
            i <= groups@.len(),
            groups.deep_view() == text::groups_of(input@),
            all_total(input@, 0) <= usize::MAX,
            forall|k: int|
                0 <= k < text::groups_of(input@).len() ==> text::spec_lines(
                    #[trigger] text::groups_of(input@)[k],
                ).len() >= 1,
            total + all_total(input@, i as int) == all_total(input@, 0),
            total >= 0,
        decreases groups@.len() - i,
    {
        proof {
            assert(groups@[i as int]@ == groups.deep_view()[i as int]);
            lemma_all_total_nonneg(input@, i + 1);
        }
        let c = count_all(groups[i].as_str());
        total = total + c;
        i = i + 1;
    }
    total
}

/// The calendar day this module solves.
pub struct Day6 {}

impl Day6 {
    /// The day's number.
    pub fn get_day_number(&self) -> (r: usize)
        ensures
            r == 6,
    {
        6
    }
}

} // verus!
