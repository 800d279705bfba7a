//! Character-level scanning helpers shared by the day modules: decimal
//! numbers, line splitting, whitespace tokens, blank-line groups and
//! substring search.  Every splitter is specified against a recursive
//! specification over the character sequence of the input.

use vstd::prelude::*;
use vstd::string::StrSliceExecFns;
use vstd::string::StringExecFns;

verus! {

// ------------------------------------------------------------------
// decimal digits
// ------------------------------------------------------------------

/// True when `c` is one of the decimal digits '0' through '9'.
pub open spec fn is_digit(c: char) -> bool {
    48 <= c as int && c as int <= 57
}

/// Numeric value of one decimal digit.
pub open spec fn digit_value(c: char) -> int {
    c as int - 48
}

/// A nonempty, all-digit character sequence.
pub open spec fn is_digits(s: Seq<char>) -> bool {
    s.len() > 0 && (forall|i: int| 0 <= i < s.len() ==> is_digit(s[i]))
}

/// Value of a decimal digit string, most significant digit first.
pub open spec fn dec_value(s: Seq<char>) -> int
    decreases s.len(),
{
    if s.len() == 0 {
        0
    } else {
        10 * dec_value(s.drop_last()) + digit_value(s.last())
    }
}

pub proof fn lemma_dec_value_nonneg(s: Seq<char>)
    requires
        forall|i: int| 0 <= i < s.len() ==> is_digit(s[i]),
    ensures
        dec_value(s) >= 0,
    decreases s.len(),
{
    if s.len() > 0 {
        lemma_dec_value_nonneg(s.drop_last());
    }
}

/// A digit string is worth at least any of its prefixes.
pub proof fn lemma_dec_value_prefix(s: Seq<char>, n: int)
    requires
        0 <= n <= s.len(),
        forall|i: int| 0 <= i < s.len() ==> is_digit(s[i]),
    ensures
        dec_value(s.take(n)) <= dec_value(s),
    decreases s.len(),
{
    if n < s.len() {
        assert(s.take(n) =~= s.drop_last().take(n));
        lemma_dec_value_prefix(s.drop_last(), n);
        lemma_dec_value_nonneg(s.drop_last());
    } else {
        assert(s.take(n) =~= s);
    }
}

/// Reports whether `c` is a decimal digit.
pub fn digit(c: char) -> (r: bool)
    ensures
        r == is_digit(c),
{
    let u = c as u32;
    48 <= u && u <= 57
}

/// Parses the character range `[from, to)` of `s` as a decimal number.
/// Returns the value exactly when the range is nonempty, consists of
/// digits only, and the value fits in a `u64`.
pub fn parse_u64_range(s: &str, from: usize, to: usize) -> (r: Option<u64>)
    requires
        from <= to <= s@.len(),
    ensures
        ({
            let piece = s@.subrange(from as int, to as int);
            match r {
                Some(v) => is_digits(piece) && v == dec_value(piece),
                None => !(is_digits(piece) && dec_value(piece) <= u64::MAX),
            }
        }),
{
    let ghost piece = s@.subrange(from as int, to as int);
    if from == to {
        return None;
    }
    let mut acc: u64 = 0;
    let mut i: usize = from;
    while i < to
        invariant
            from <= i <= to,
            to <= s@.len(),
            piece == s@.subrange(from as int, to as int),
            forall|j: int| 0 <= j < i - from ==> is_digit(piece[j]),
            acc == dec_value(piece.take(i - from)),
        decreases to - i,
    {
        let c = s.get_char(i);
        assert(c == piece[i - from]);
        let u = c as u32;
        if u < 48 || u > 57 {
            return None;
        }
        let d: u64 = (u - 48) as u64;
        proof {
            assert(piece.take(i - from + 1).drop_last() =~= piece.take(i - from));
            assert(piece.take(i - from + 1).last() == piece[i - from]);
        }
        let step = match acc.checked_mul(10) {
            Some(m) => m.checked_add(d),
            None => None,
        };
        match step {
            Some(v) => {
                acc = v;
            },
            None => {
                proof {
                    if is_digits(piece) {
                        lemma_dec_value_prefix(piece, i - from + 1);
                    }
                }
                return None;
            },
        }
        i = i + 1;
    }
    proof {
        assert(piece.take(to - from) =~= piece);
    }
    Some(acc)
}

// ------------------------------------------------------------------
// single-character separators
// ------------------------------------------------------------------

/// Position of the first occurrence of `sep` in `s`, or `s.len()`.
pub open spec fn sep_pos(s: Seq<char>, sep: char) -> int
    decreases s.len(),
{
    if s.len() == 0 {
        0
    } else if s[0] == sep {
        0
    } else {
        1 + sep_pos(s.subrange(1, s.len() as int), sep)
    }
}

pub proof fn lemma_sep_pos(s: Seq<char>, sep: char)
    ensures
        0 <= sep_pos(s, sep) <= s.len(),
        sep_pos(s, sep) < s.len() ==> s[sep_pos(s, sep)] == sep,
        forall|j: int| 0 <= j < sep_pos(s, sep) ==> s[j] != sep,
    decreases s.len(),
{
    if s.len() > 0 && s[0] != sep {
        let tail = s.subrange(1, s.len() as int);
        lemma_sep_pos(tail, sep);
        assert forall|j: int| 0 <= j < sep_pos(s, sep) implies s[j] != sep by {
            if j > 0 {
                assert(tail[j - 1] == s[j]);
            }
        }
    }
}

/// `sep_pos` is the unique position with these properties.
pub proof fn lemma_sep_pos_is(s: Seq<char>, sep: char, k: int)
    requires
        0 <= k <= s.len(),
        k < s.len() ==> s[k] == sep,
        forall|j: int| 0 <= j < k ==> s[j] != sep,
    ensures
        sep_pos(s, sep) == k,
    decreases s.len(),
{
    if s.len() > 0 && s[0] != sep {
        let tail = s.subrange(1, s.len() as int);
        assert forall|j: int| 0 <= j < k - 1 implies tail[j] != sep by {
            assert(tail[j] == s[j + 1]);
        }
        lemma_sep_pos_is(tail, sep, k - 1);
    }
}

/// The pieces of `s` between occurrences of `sep`; empty pieces are kept.
pub open spec fn split_on(s: Seq<char>, sep: char) -> Seq<Seq<char>>
    decreases s.len(),
{
    let p = sep_pos(s, sep);
    if p >= s.len() {
        seq![s]
    } else {
        proof {
            lemma_sep_pos(s, sep);
        }
        seq![s.subrange(0, p)] + split_on(s.subrange(p + 1, s.len() as int), sep)
    }
}

/// The lines of `s`: pieces between newline characters, where a final
/// newline ends the last line rather than opening an empty one.
pub open spec fn spec_lines(s: Seq<char>) -> Seq<Seq<char>> {
    if s.len() == 0 {
        Seq::empty()
    } else if s.last() == '\n' {
        split_on(s.drop_last(), '\n')
    } else {
        split_on(s, '\n')
    }
}

/// Position of the first `sep` at or after `from` (in characters), or
/// the character length of `s`.
pub fn find_char_from(s: &str, n: usize, from: usize, sep: char) -> (r: usize)
    requires
        n == s@.len(),
        from <= n,
    ensures
        from <= r <= n,
        r - from == sep_pos(s@.subrange(from as int, n as int), sep),
        r < n ==> s@[r as int] == sep,
        forall|j: int| from <= j < r ==> s@[j] != sep,
{
    let ghost rest = s@.subrange(from as int, n as int);
    let mut i: usize = from;
    while i < n
        invariant
            from <= i <= n,
            n == s@.len(),
            rest == s@.subrange(from as int, n as int),
            forall|j: int| from <= j < i ==> s@[j] != sep,
        decreases n - i,
    {
        let c = s.get_char(i);
        if c == sep {
            proof {
                assert forall|j: int| 0 <= j < i - from implies rest[j] != sep by {
                    assert(rest[j] == s@[from + j]);
                }
                assert(rest[i - from] == s@[i as int]);
                lemma_sep_pos_is(rest, sep, i - from);
            }
            return i;
        }
        i = i + 1;
    }
    proof {
        assert forall|j: int| 0 <= j < n - from implies rest[j] != sep by {
            assert(rest[j] == s@[from + j]);
        }
        lemma_sep_pos_is(rest, sep, n - from);
    }
    n
}

/// Splits `s` into its lines, as `spec_lines` describes.
pub fn split_lines(s: &str) -> (r: Vec<String>)
    ensures
        r.deep_view() == spec_lines(s@),
{
    let mut r: Vec<String> = Vec::new();
    let n = s.unicode_len();
    if n == 0 {
        assert(r.deep_view() =~= spec_lines(s@));
        return r;
    }
    let last = s.get_char(n - 1);
    let end = if last == '\n' {
        n - 1
    } else {
        n
    };
    let ghost body = s@.subrange(0, end as int);
    proof {
        if last == '\n' {
            assert(body =~= s@.drop_last());
        } else {
            assert(body =~= s@);
        }
    }
    proof {
        assert(body.subrange(0, end as int) =~= body);
        assert(r.deep_view() + split_on(body, '\n') =~~= spec_lines(s@));
    }
    let mut start: usize = 0;
    loop
        invariant
            0 <= start <= end <= n,
            n == s@.len(),
            body == s@.subrange(0, end as int),
            spec_lines(s@) == r.deep_view() + split_on(
                body.subrange(start as int, end as int),
                '\n',
            ),
            end < n ==> s@[end as int] == '\n',
        decreases end - start,
    {
        let ghost rest = body.subrange(start as int, end as int);
        let p = find_char_from(s, n, start, '\n');
        proof {
            // the first newline at or after `start`, clipped to `end`,
            // is the separator position inside `rest`
            if p >= end {
                assert forall|j: int| 0 <= j < rest.len() implies rest[j] != '\n' by {
                    assert(rest[j] == s@[start + j]);
                }
                lemma_sep_pos_is(rest, '\n', rest.len() as int);
            } else {
                assert forall|j: int| 0 <= j < p - start implies rest[j] != '\n' by {
                    assert(rest[j] == s@[start + j]);
                }
                assert(rest[p - start] == s@[p as int]);
                lemma_sep_pos_is(rest, '\n', p - start);
            }
        }
        if p >= end {
            let piece = s.substring_char(start, end);
            r.push(piece.to_owned());
            proof {
                assert(piece@ =~= rest);
                assert(split_on(rest, '\n') =~= seq![rest]);
                assert(r.deep_view() =~= spec_lines(s@));
            }
            return r;
        } else {
            let piece = s.substring_char(start, p);
            r.push(piece.to_owned());
            proof {
                assert(piece@ =~= rest.subrange(0, p - start));
                assert(rest.subrange(p - start + 1, rest.len() as int) =~= body.subrange(
                    p + 1,
                    end as int,
                ));
                assert(r.deep_view() + split_on(body.subrange(p + 1, end as int), '\n')
                    =~= spec_lines(s@));
            }
            start = p + 1;
        }
    }
}

// ------------------------------------------------------------------
// whitespace tokens
// ------------------------------------------------------------------

/// True when `c` is an ASCII whitespace character.
pub open spec fn is_space(c: char) -> bool {
    c == ' ' || c == '\t' || c == '\n' || c == '\r' || c == '\u{c}'
}

/// Position of the first character whose `is_space` value equals
/// `space`, or `s.len()`.
pub open spec fn class_pos(s: Seq<char>, space: bool) -> int
    decreases s.len(),
{
    if s.len() == 0 {
        0
    } else if is_space(s[0]) == space {
        0
    } else {
        1 + class_pos(s.subrange(1, s.len() as int), space)
    }
}

pub proof fn lemma_class_pos(s: Seq<char>, space: bool)
    ensures
        0 <= class_pos(s, space) <= s.len(),
        class_pos(s, space) < s.len() ==> is_space(s[class_pos(s, space)]) == space,
        forall|j: int| 0 <= j < class_pos(s, space) ==> is_space(s[j]) != space,
    decreases s.len(),
{
    if s.len() > 0 && is_space(s[0]) != space {
        let tail = s.subrange(1, s.len() as int);
        lemma_class_pos(tail, space);
        assert forall|j: int| 0 <= j < class_pos(s, space) implies is_space(s[j]) != space by {
            if j > 0 {
                assert(tail[j - 1] == s[j]);
            }
        }
    }
}

pub proof fn lemma_class_pos_is(s: Seq<char>, space: bool, k: int)
    requires
        0 <= k <= s.len(),
        k < s.len() ==> is_space(s[k]) == space,
        forall|j: int| 0 <= j < k ==> is_space(s[j]) != space,
    ensures
        class_pos(s, space) == k,
    decreases s.len(),
{
    if s.len() > 0 && is_space(s[0]) != space {
        let tail = s.subrange(1, s.len() as int);
        assert forall|j: int| 0 <= j < k - 1 implies is_space(tail[j]) != space by {
            assert(tail[j] == s[j + 1]);
        }
        lemma_class_pos_is(tail, space, k - 1);
    }
}

/// The whitespace-separated tokens of `s`; empty tokens never occur.
pub open spec fn tokens_of(s: Seq<char>) -> Seq<Seq<char>>
    decreases s.len(),
{
    let b = class_pos(s, false);
    if b >= s.len() {
        Seq::empty()
    } else {
        proof {
            lemma_class_pos(s, false);
        }
        let rest = s.subrange(b, s.len() as int);
        let e = class_pos(rest, true);
        proof {
            lemma_class_pos(rest, true);
        }
        seq![rest.subrange(0, e)] + tokens_of(rest.subrange(e, rest.len() as int))
    }
}

/// Position of the first character at or after `from` whose `is_space`
/// value equals `space`, or the character length of `s`.
pub fn find_class_from(s: &str, n: usize, from: usize, space: bool) -> (r: usize)
    requires
        n == s@.len(),
        from <= n,
    ensures
        from <= r <= n,
        r - from == class_pos(s@.subrange(from as int, n as int), space),
        r < n ==> is_space(s@[r as int]) == space,
        forall|j: int| from <= j < r ==> is_space(s@[j]) != space,
{
    let ghost rest = s@.subrange(from as int, n as int);
    let mut i: usize = from;
    while i < n
        invariant
            from <= i <= n,
            n == s@.len(),
            rest == s@.subrange(from as int, n as int),
            forall|j: int| from <= j < i ==> is_space(s@[j]) != space,
        decreases n - i,
    {
        let c = s.get_char(i);
        let sp = c == ' ' || c == '\t' || c == '\n' || c == '\r' || c == '\u{c}';
        if sp == space {
            proof {
                assert forall|j: int| 0 <= j < i - from implies is_space(rest[j]) != space by {
                    assert(rest[j] == s@[from + j]);
                }
                assert(rest[i - from] == s@[i as int]);
                lemma_class_pos_is(rest, space, i - from);
            }
            return i;
        }
        i = i + 1;
    }
    proof {
        assert forall|j: int| 0 <= j < n - from implies is_space(rest[j]) != space by {
            assert(rest[j] == s@[from + j]);
        }
        lemma_class_pos_is(rest, space, n - from);
    }
    n
}

/// Splits `s` into its whitespace-separated tokens, as `tokens_of`
/// describes.
pub fn split_tokens(s: &str) -> (r: Vec<String>)
    ensures
        r.deep_view() == tokens_of(s@),
{
    let mut r: Vec<String> = Vec::new();
    let n = s.unicode_len();
    let mut cur: usize = 0;
    proof {
        assert(s@.subrange(0, n as int) =~= s@);
        assert(r.deep_view() + tokens_of(s@) =~~= tokens_of(s@));
    }
    loop
        invariant
            0 <= cur <= n,
            n == s@.len(),
            tokens_of(s@) == r.deep_view() + tokens_of(s@.subrange(cur as int, n as int)),
        decreases n - cur,
    {
        let ghost rest = s@.subrange(cur as int, n as int);
        let i = find_class_from(s, n, cur, false);
        proof {
            assert forall|j: int| 0 <= j < i - cur implies is_space(rest[j]) != false by {
                assert(rest[j] == s@[cur + j]);
            }
            if i < n {
                assert(rest[i - cur] == s@[i as int]);
            }
            lemma_class_pos_is(rest, false, i - cur);
        }
        if i >= n {
            proof {
                assert(tokens_of(rest) =~~= Seq::<Seq<char>>::empty());
                assert(r.deep_view() =~~= tokens_of(s@));
            }
            return r;
        }
        let ghost word_on = s@.subrange(i as int, n as int);
        let j = find_class_from(s, n, i, true);
        proof {
            assert(rest.subrange(i - cur, rest.len() as int) =~= word_on);
            assert forall|k: int| 0 <= k < j - i implies is_space(word_on[k]) != true by {
                assert(word_on[k] == s@[i + k]);
            }
            if j < n {
                assert(word_on[j - i] == s@[j as int]);
            }
            lemma_class_pos_is(word_on, true, j - i);
        }
        let piece = s.substring_char(i, j);
        r.push(piece.to_owned());
        proof {
            assert(piece@ =~= word_on.subrange(0, j - i));
            assert(word_on.subrange(j - i, word_on.len() as int) =~= s@.subrange(
                j as int,
                n as int,
            ));
            assert(tokens_of(rest) =~~= seq![word_on.subrange(0, j - i)] + tokens_of(
                s@.subrange(j as int, n as int),
            ));
            assert(tokens_of(s@) =~~= r.deep_view() + tokens_of(s@.subrange(j as int, n as int)));
        }
        cur = j;
    }
}

// ------------------------------------------------------------------
// blank-line groups
// ------------------------------------------------------------------

/// Position of the first empty line (two adjacent newlines) in `s`, or
/// `s.len()` when there is none.
pub open spec fn blank_pos(s: Seq<char>) -> int
    decreases s.len(),
{
    if s.len() < 2 {
        s.len() as int
    } else if s[0] == '\n' && s[1] == '\n' {
        0
    } else {
        1 + blank_pos(s.subrange(1, s.len() as int))
    }
}

pub proof fn lemma_blank_pos(s: Seq<char>)
    ensures
        0 <= blank_pos(s) <= s.len(),
        blank_pos(s) < s.len() ==> blank_pos(s) + 1 < s.len() && s[blank_pos(s)] == '\n'
            && s[blank_pos(s) + 1] == '\n',
        forall|j: int|
            0 <= j < blank_pos(s) && j + 1 < s.len() ==> !((#[trigger] s[j]) == '\n' && s[j + 1]
                == '\n'),
    decreases s.len(),
{
    if s.len() >= 2 && !(s[0] == '\n' && s[1] == '\n') {
        let tail = s.subrange(1, s.len() as int);
        lemma_blank_pos(tail);
        assert forall|j: int|
            0 <= j < blank_pos(s) && j + 1 < s.len() implies !((#[trigger] s[j]) == '\n' && s[j
            + 1] == '\n') by {
            if j > 0 {
                assert(tail[j - 1] == s[j]);
                assert(tail[j] == s[j + 1]);
            }
        }
    }
}

pub proof fn lemma_blank_pos_is(s: Seq<char>, k: int)
    requires
        0 <= k <= s.len(),
        k < s.len() ==> k + 1 < s.len() && s[k] == '\n' && s[k + 1] == '\n',
        forall|j: int|
            0 <= j < k && j + 1 < s.len() ==> !((#[trigger] s[j]) == '\n' && s[j + 1] == '\n'),
    ensures
        blank_pos(s) == k,
    decreases s.len(),
{
    if s.len() >= 2 && !(s[0] == '\n' && s[1] == '\n') {
        let tail = s.subrange(1, s.len() as int);
        assert forall|j: int|
            0 <= j < k - 1 && j + 1 < tail.len() implies !((#[trigger] tail[j]) == '\n' && tail[j
            + 1] == '\n') by {
            assert(tail[j] == s[j + 1]);
            assert(tail[j + 1] == s[j + 2]);
        }
        lemma_blank_pos_is(tail, k - 1);
    }
}

/// The groups of `s`: pieces separated by empty lines.
pub open spec fn groups_of(s: Seq<char>) -> Seq<Seq<char>>
    decreases s.len(),
{
    let p = blank_pos(s);
    if p >= s.len() {
        seq![s]
    } else {
        proof {
            lemma_blank_pos(s);
        }
        seq![s.subrange(0, p)] + groups_of(s.subrange(p + 2, s.len() as int))
    }
}

/// Splits `s` at empty lines, as `groups_of` describes.
pub fn split_groups(s: &str) -> (r: Vec<String>)
    ensures
        r.deep_view() == groups_of(s@),
{
    let mut r: Vec<String> = Vec::new();
    let n = s.unicode_len();
    let mut start: usize = 0;
    proof {
        assert(s@.subrange(0, n as int) =~= s@);
        assert(r.deep_view() + groups_of(s@) =~~= groups_of(s@));
    }
    loop
        invariant
            0 <= start <= n,
            n == s@.len(),
            groups_of(s@) == r.deep_view() + groups_of(s@.subrange(start as int, n as int)),
        decreases n - start,
    {
        let ghost rest = s@.subrange(start as int, n as int);
        // find the first adjacent newline pair at or after `start`
        let mut i: usize = start;
        let mut found: bool = false;
        while !found && n - i > 1
            invariant
                start <= i <= n,
                n == s@.len(),
                found ==> i + 1 < n && s@[i as int] == '\n' && s@[i + 1] == '\n',
                forall|j: int|
                    start <= j < i && j + 1 < n ==> !((#[trigger] s@[j]) == '\n' && s@[j + 1]
                        == '\n'),
            decreases n - i + (if found { 0int } else { 1int }),
        {
            let a = s.get_char(i);
            let b = s.get_char(i + 1);
            if a == '\n' && b == '\n' {
                found = true;
            } else {
                i = i + 1;
            }
        }
        proof {
            if found {
                assert forall|j: int|
                    0 <= j < i - start && j + 1 < rest.len() implies !((#[trigger] rest[j]) == '\n'
                    && rest[j + 1] == '\n') by {
                    assert(rest[j] == s@[start + j]);
                    assert(rest[j + 1] == s@[start + j + 1]);
                }
                assert(rest[i - start] == s@[i as int]);
                assert(rest[i - start + 1] == s@[i + 1]);
                lemma_blank_pos_is(rest, i - start);
            } else {
                assert forall|j: int|
                    0 <= j < rest.len() && j + 1 < rest.len() implies !((#[trigger] rest[j]) == '\n'
                    && rest[j + 1] == '\n') by {
                    assert(rest[j] == s@[start + j]);
                    assert(rest[j + 1] == s@[start + j + 1]);
                }
                lemma_blank_pos_is(rest, rest.len() as int);
            }
        }
        if found {
            let piece = s.substring_char(start, i);
            r.push(piece.to_owned());
            proof {
                assert(piece@ =~= rest.subrange(0, i - start));
                assert(rest.subrange(i - start + 2, rest.len() as int) =~= s@.subrange(
                    i + 2,
                    n as int,
                ));
                assert(groups_of(s@) =~~= r.deep_view() + groups_of(
                    s@.subrange(i + 2, n as int),
                ));
            }
            start = i + 2;
        } else {
            let piece = s.substring_char(start, n);
            r.push(piece.to_owned());
            proof {
                assert(piece@ =~= rest);
                assert(groups_of(rest) =~~= seq![rest]);
                assert(r.deep_view() =~~= groups_of(s@));
            }
            return r;
        }
    }
}

// ------------------------------------------------------------------
// substring search
// ------------------------------------------------------------------

/// True when `needle` occurs somewhere in `hay`.
pub open spec fn has_sub(hay: Seq<char>, needle: Seq<char>) -> bool {
    exists|i: int|
        0 <= i && i + needle.len() <= hay.len() && (#[trigger] hay.subrange(i, i + needle.len()))
            == needle
}

/// Reports whether `needle` occurs in `hay`.
pub fn contains_str(hay: &str, needle: &str) -> (r: bool)
    ensures
        r == has_sub(hay@, needle@),
{
    let n = hay.unicode_len();
    let m = needle.unicode_len();
    if m > n {
        return false;
    }
    let mut i: usize = 0;
    while i <= n - m
        invariant
            0 <= i <= n - m + 1,
            m <= n,
            n == hay@.len(),
            m == needle@.len(),
            forall|k: int|
                0 <= k < i ==> (#[trigger] hay@.subrange(k, k + needle@.len())) != needle@,
        decreases n - m - i + 1,
    {
        let mut j: usize = 0;
        let mut same: bool = true;
        while same && j < m
            invariant
                0 <= j <= m,
                i + m <= n,
                n == hay@.len(),
                m == needle@.len(),
                same ==> forall|t: int| 0 <= t < j ==> hay@[i + t] == needle@[t],
                !same ==> exists|t: int| 0 <= t < m && hay@[i + t] != needle@[t],
            decreases m - j + (if same { 1int } else { 0int }),
        {
            let a = hay.get_char(i + j);
            let b = needle.get_char(j);
            if a == b {
                j = j + 1;
            } else {
                same = false;
            }
        }
        if same {
            proof {
                assert(hay@.subrange(i as int, i + needle@.len()) =~= needle@);
            }
            return true;
        }
        proof {
            let t = choose|t: int| 0 <= t < m && hay@[i + t] != needle@[t];
            assert(hay@.subrange(i as int, i + needle@.len())[t] == hay@[i + t]);
        }
        i = i + 1;
    }
    proof {
        assert forall|k: int|
            0 <= k && k + needle@.len() <= hay@.len() implies (#[trigger] hay@.subrange(
            k,
            k + needle@.len(),
        )) != needle@ by {
            assert(k < i);
        }
    }
    false
}

} // verus!
