//! Password policy checks.  A policy line reads
//! `<min>-<max> <letter>: <password>`; the first rule counts
//! occurrences of the letter, the second checks the two positions
//! named by the numbers (one-based) for exactly one occurrence.

use vstd::prelude::*;
use vstd::string::StrSliceExecFns;
use crate::text;

verus! {

/// A word character: an ASCII letter, digit or underscore.
pub open spec fn is_word_char(c: char) -> bool {
    (97 <= c as int && c as int <= 122) || (65 <= c as int && c as int <= 90) || text::is_digit(c)
        || c as int == 95
}

/// First position at or after `from` that is not a decimal digit.
pub open spec fn digit_run_end(s: Seq<char>, from: int) -> int
    decreases s.len() - from
        when 0 <= from
{
    if from >= s.len() {
        from
    } else if !text::is_digit(s[from]) {
        from
    } else {
        digit_run_end(s, from + 1)
    }
}

/// First position at or after `from` that is not a word character.
pub open spec fn word_run_end(s: Seq<char>, from: int) -> int
    decreases s.len() - from
        when 0 <= from
{
    if from >= s.len() {
        from
    } else if !is_word_char(s[from]) {
        from
    } else {
        word_run_end(s, from + 1)
    }
}

pub proof fn lemma_digit_run_end(s: Seq<char>, from: int)
    requires
        0 <= from,
    ensures
        from <= digit_run_end(s, from),
        from <= s.len() ==> digit_run_end(s, from) <= s.len(),
        forall|j: int| from <= j < digit_run_end(s, from) ==> text::is_digit(#[trigger] s[j]),
        digit_run_end(s, from) < s.len() ==> !text::is_digit(s[digit_run_end(s, from)]),
    decreases s.len() - from,
{
    if from < s.len() && text::is_digit(s[from]) {
        lemma_digit_run_end(s, from + 1);
    }
}

pub proof fn lemma_word_run_end(s: Seq<char>, from: int)
    requires
        0 <= from,
    ensures
        from <= word_run_end(s, from),
        from <= s.len() ==> word_run_end(s, from) <= s.len(),
        forall|j: int| from <= j < word_run_end(s, from) ==> is_word_char(#[trigger] s[j]),
        word_run_end(s, from) < s.len() ==> !is_word_char(s[word_run_end(s, from)]),
    decreases s.len() - from,
{
    if from < s.len() && is_word_char(s[from]) {
        lemma_word_run_end(s, from + 1);
    }
}

/// Scans the end of the digit run starting at `from`.
fn scan_digit_run(s: &str, n: usize, from: usize) -> (r: usize)
    requires
        n == s@.len(),
        from <= n,
    ensures
        r == digit_run_end(s@, from as int),
        from <= r <= n,
{
    proof {
        lemma_digit_run_end(s@, from as int);
    }
    let mut i: usize = from;
    while i < n
        invariant
            from <= i <= n,
            n == s@.len(),
            forall|j: int| from <= j < i ==> text::is_digit(#[trigger] s@[j]),
            digit_run_end(s@, from as int) >= i,
        decreases n - i,
    {
        let c = s.get_char(i);
        if !text::digit(c) {
            proof {
                lemma_run_stops_digit(s@, from as int, i as int);
            }
            return i;
        }
        proof {
            lemma_run_passes_digit(s@, from as int, i as int);
        }
        i = i + 1;
    }
    proof {
        lemma_digit_run_end(s@, from as int);
    }
    n
}

proof fn lemma_run_passes_digit(s: Seq<char>, from: int, i: int)
    requires
        0 <= from <= i < s.len(),
        forall|j: int| from <= j <= i ==> text::is_digit(#[trigger] s[j]),
    ensures
        digit_run_end(s, from) >= i + 1,
    decreases i - from,
{
    if from < i {
        lemma_run_passes_digit(s, from + 1, i);
    } else {
        lemma_digit_run_end(s, from + 1);
    }
}

proof fn lemma_run_stops_digit(s: Seq<char>, from: int, i: int)
    requires
        0 <= from <= i < s.len(),
        forall|j: int| from <= j < i ==> text::is_digit(#[trigger] s[j]),
        !text::is_digit(s[i]),
    ensures
        digit_run_end(s, from) == i,
    decreases i - from,
{
    if from < i {
        lemma_run_stops_digit(s, from + 1, i);
    }
}

proof fn lemma_run_passes_word(s: Seq<char>, from: int, i: int)
    requires
        0 <= from <= i < s.len(),
        forall|j: int| from <= j <= i ==> is_word_char(#[trigger] s[j]),
    ensures
        word_run_end(s, from) >= i + 1,
    decreases i - from,
{
    if from < i {
        lemma_run_passes_word(s, from + 1, i);
    } else {
        lemma_word_run_end(s, from + 1);
    }
}

proof fn lemma_run_stops_word(s: Seq<char>, from: int, i: int)
    requires
        0 <= from <= i < s.len(),
        forall|j: int| from <= j < i ==> is_word_char(#[trigger] s[j]),
        !is_word_char(s[i]),
    ensures
        word_run_end(s, from) == i,
    decreases i - from,
{
    if from < i {
        lemma_run_stops_word(s, from + 1, i);
    }
}

/// Scans the end of the word run starting at `from`.
fn scan_word_run(s: &str, n: usize, from: usize) -> (r: usize)
    requires
        n == s@.len(),
        from <= n,
    ensures
        r == word_run_end(s@, from as int),
        from <= r <= n,
{
    let mut i: usize = from;
    while i < n
        invariant
            from <= i <= n,
            n == s@.len(),
            forall|j: int| from <= j < i ==> is_word_char(#[trigger] s@[j]),
        decreases n - i,
    {
        let c = s.get_char(i);
        let u = c as u32;
        let word = (97 <= u && u <= 122) || (65 <= u && u <= 90) || (48 <= u && u <= 57) || u
            == 95;
        if !word {
            proof {
                lemma_run_stops_word(s@, from as int, i as int);
            }
            return i;
        }
        proof {
            lemma_run_passes_word(s@, from as int, i as int);
        }
        i = i + 1;
    }
    proof {
        lemma_word_run_end(s@, from as int);
    }
    n
}

/// End of the first number of a policy line.
pub open spec fn min_end(s: Seq<char>) -> int {
    digit_run_end(s, 0)
}

/// End of the second number of a policy line.
pub open spec fn max_end(s: Seq<char>) -> int {
    digit_run_end(s, min_end(s) + 1)
}

/// Shape of a policy line as the parser reads it: two maximal digit
/// runs joined by '-', a space, the letter, ": ", and a nonempty word
/// run; anything after the word run is ignored.
pub open spec fn wf_policy_line(s: Seq<char>) -> bool {
    let a = min_end(s);
    let b = max_end(s);
    &&& a >= 1
    &&& a < s.len()
    &&& s[a] == '-'
    &&& b > a + 1
    &&& b + 4 < s.len()
    &&& s[b] == ' '
    &&& is_word_char(s[b + 1])
    &&& s[b + 2] == ':'
    &&& s[b + 3] == ' '
    &&& is_word_char(s[b + 4])
    &&& text::dec_value(s.subrange(0, a)) <= usize::MAX
    &&& text::dec_value(s.subrange(a + 1, b)) <= usize::MAX
}

/// The parsed lowest count or first position.
pub open spec fn parsed_min(s: Seq<char>) -> int {
    text::dec_value(s.subrange(0, min_end(s)))
}

/// The parsed highest count or second position.
pub open spec fn parsed_max(s: Seq<char>) -> int {
    text::dec_value(s.subrange(min_end(s) + 1, max_end(s)))
}

/// The parsed policy letter.
pub open spec fn parsed_char(s: Seq<char>) -> char {
    s[max_end(s) + 1]
}

/// The parsed password: the word run after the ": ".
pub open spec fn parsed_password(s: Seq<char>) -> Seq<char> {
    s.subrange(max_end(s) + 4, word_run_end(s, max_end(s) + 4))
}

/// Which of the two policy readings applies.
#[derive(Clone, Copy, PartialEq, Eq, Structural, Debug)]
pub enum PolicyType {
    Part1,
    Part2,
}

/// A password with the policy numbers and letter of its line.
#[derive(Debug)]
pub struct PasswordAndPolicy {
    pub password: String,
    pub min: usize,
    pub max: usize,
    pub char: char,
}

impl PartialEq for PasswordAndPolicy {
    fn eq(&self, other: &Self) -> (r: bool) {
        self.min == other.min && self.max == other.max && self.char == other.char
            && self.password == other.password
    }
}

impl vstd::std_specs::cmp::PartialEqSpecImpl for PasswordAndPolicy {
    open spec fn obeys_eq_spec() -> bool {
        true
    }

    open spec fn eq_spec(&self, other: &Self) -> bool {
        self.min == other.min && self.max == other.max && self.char == other.char
            && self.password@ == other.password@
    }
}

/// Occurrences of `c` in `s`.
pub open spec fn count_char(s: Seq<char>, c: char) -> int
    decreases s.len(),
{
    if s.len() == 0 {
        0
    } else {
        count_char(s.drop_last(), c) + (if s.last() == c {
            1int
        } else {
            0int
        })
    }
}

/// The policy verdict on a password: by occurrence count, or by the
/// two one-based positions holding the letter exactly once.
pub open spec fn spec_valid(
    policy: PolicyType,
    mn: int,
    mx: int,
    c: char,
    pw: Seq<char>,
) -> bool {
    match policy {
        PolicyType::Part1 => mn <= count_char(pw, c) <= mx,
        PolicyType::Part2 => ((pw[mn - 1] == c) != (pw[mx - 1] == c)),
    }
}

impl PasswordAndPolicy {
    /// The policy verdict on this password.
    pub fn is_valid(&self, policy: &PolicyType) -> (r: bool)
        requires
            *policy is Part2 ==> 1 <= self.min <= self.password@.len() && 1 <= self.max
                <= self.password@.len(),
        ensures
            r == spec_valid(
                *policy,
                self.min as int,
                self.max as int,
                self.char,
                self.password@,
            ),
    {
        let pw = self.password.as_str();
        match policy {
            PolicyType::Part1 => {
                let n = pw.unicode_len();
                let mut count: usize = 0;
                let mut i: usize = 0;
                while i < n
                    invariant
                        i <= n,
                        n == pw@.len(),
                        pw@ == self.password@,
                        count == count_char(pw@.take(i as int), self.char),
                        count <= i,
                    decreases n - i,
                {
                    proof {
                        assert(pw@.take(i + 1).drop_last() =~= pw@.take(i as int));
                        assert(pw@.take(i + 1).last() == pw@[i as int]);
                    }
                    let c = pw.get_char(i);
                    if c == self.char {
                        count = count + 1;
                    }
                    i = i + 1;
                }
                proof {
                    assert(pw@.take(n as int) =~= pw@);
                }
                self.min <= count && count <= self.max
            },
            PolicyType::Part2 => {
                let first = pw.get_char(self.min - 1);
                let second = pw.get_char(self.max - 1);
                (first == self.char) != (second == self.char)
            },
        }
    }

    /// Parses one policy line.
    pub fn from_string(input: &String) -> (r: PasswordAndPolicy)
        requires
            wf_policy_line(input@),
        ensures
            r.min == parsed_min(input@),
            r.max == parsed_max(input@),
            r.char == parsed_char(input@),
            r.password@ == parsed_password(input@),
    {
        let s = input.as_str();
        let n = s.unicode_len();
        let a = scan_digit_run(s, n, 0);
        proof {
            lemma_digit_run_end(s@, 0);
            lemma_digit_run_end(s@, a + 1);
        }
        let b = scan_digit_run(s, n, a + 1);
        let mn = match text::parse_u64_range(s, 0, a) {
            Some(v) => v,
            None => {
                proof {
                    assert(false);
                }
                0
            },
        };
        let mx = match text::parse_u64_range(s, a + 1, b) {
            Some(v) => v,
            None => {
                proof {
                    assert(false);
                }
                0
            },
        };
        let letter = s.get_char(b + 1);
        let pw_end = scan_word_run(s, n, b + 4);
        proof {
            lemma_word_run_end(s@, b + 4);
        }
        let password = s.substring_char(b + 4, pw_end).to_owned();
        PasswordAndPolicy { min: mn as usize, max: mx as usize, char: letter, password }
    }
}

/// Every line of the listing is a well-formed policy line.
pub open spec fn wf_policy_listing(s: Seq<char>) -> bool {
    forall|i: int|
        0 <= i < text::spec_lines(s).len() ==> wf_policy_line(#[trigger] text::spec_lines(s)[i])
}

/// Parses every line of the listing.
pub fn get_input(input: &str) -> (r: Vec<PasswordAndPolicy>)
    requires
        wf_policy_listing(input@),
    ensures
        r@.len() == text::spec_lines(input@).len(),
        forall|j: int|
            0 <= j < r@.len() ==> {
                let line = text::spec_lines(input@)[j];
                (#[trigger] r@[j]).min == parsed_min(line) && r@[j].max == parsed_max(line)
                    && r@[j].char == parsed_char(line) && r@[j].password@ == parsed_password(line)
            },
{
    let lines = text::split_lines(input);
    let mut r: Vec<PasswordAndPolicy> = Vec::new();
    let mut i: usize = 0;
    while i < lines.len()
        invariant
            i <= lines@.len(),
            lines.deep_view() == text::spec_lines(input@),
            wf_policy_listing(input@),
            r@.len() == i,
            forall|j: int|
                0 <= j < i ==> {
                    let line = text::spec_lines(input@)[j];
                    (#[trigger] r@[j]).min == parsed_min(line) && r@[j].max == parsed_max(line)
                        && r@[j].char == parsed_char(line) && r@[j].password@ == parsed_password(
                        line,
                    )
                },
        decreases lines@.len() - i,
    {
        proof {
            assert(lines@[i as int]@ == lines.deep_view()[i as int]);
        }
        r.push(PasswordAndPolicy::from_string(&lines[i]));
        i = i + 1;
    }
    r
}

/// How many of the listing's lines from `i` on hold a valid password.
pub open spec fn valid_count(s: Seq<char>, policy: PolicyType, i: int) -> int
    decreases text::spec_lines(s).len() - i,
{
    if i < 0 || i >= text::spec_lines(s).len() {
        0
    } else {
        let line = text::spec_lines(s)[i];
        (if spec_valid(
            policy,
            parsed_min(line),
            parsed_max(line),
            parsed_char(line),
            parsed_password(line),
        ) {
            1int
        } else {
            0int
        }) + valid_count(s, policy, i + 1)
    }
}

/// Answer of a task: how many passwords of the listing satisfy their
/// own policy, read the given way.
pub fn task(input: &str, policy: PolicyType) -> (r: usize)
    requires
        wf_policy_listing(input@),
        policy is Part2 ==> forall|i: int|
            0 <= i < text::spec_lines(input@).len() ==> {
                let line = #[trigger] text::spec_lines(input@)[i];
                1 <= parsed_min(line) <= parsed_password(line).len() && 1 <= parsed_max(line)
                    <= parsed_password(line).len()
            },
    ensures
        r == valid_count(input@, policy, 0),
{
    let entries = get_input(input);
    let mut count: usize = 0;
    let mut i: usize = 0;
    while i < entries.len()
        invariant
            i <= entries@.len(),
            entries@.len() == text::spec_lines(input@).len(),
            wf_policy_listing(input@),
            policy is Part2 ==> forall|k: int|
                0 <= k < text::spec_lines(input@).len() ==> {
                    let line = #[trigger] text::spec_lines(input@)[k];
                    1 <= parsed_min(line) <= parsed_password(line).len() && 1 <= parsed_max(line)
                        <= parsed_password(line).len()
                },
            forall|j: int|
                0 <= j < entries@.len() ==> {
                    let line = text::spec_lines(input@)[j];
                    (#[trigger] entries@[j]).min == parsed_min(line) && entries@[j].max
                        == parsed_max(line) && entries@[j].char == parsed_char(line)
                        && entries@[j].password@ == parsed_password(line)
                },
            count <= i,
            count + valid_count(input@, policy, i as int) == valid_count(input@, policy, 0),
        decreases entries@.len() - i,
    {
        if entries[i].is_valid(&policy) {
            count = count + 1;
        }
        i = i + 1;
    }
    count
}

/// The calendar day this module solves.
pub struct Day2 {}

impl Day2 {
    /// The day's number.
    pub fn get_day_number(&self) -> (r: usize)
        ensures
            r == 2,
    {
        2
    }
}

} // verus!
