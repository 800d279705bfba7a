//! Luggage rules: each line names a bag colour (its first two words)
//! and the bags it must contain, read as every number followed by two
//! colour words.  The first task counts the bags that can eventually
//! hold a shiny gold one; the second counts the bags inside it.

use vstd::prelude::*;
use vstd::string::StrSliceExecFns;
use vstd::string::StringExecFns;
use crate::text;

verus! {

/// A bag colour with the bags such a bag must contain.
pub struct Bag {
    pub color: String,
    pub contains: Vec<(String, u32)>,
}

/// The rule table, one bag per input line.
pub struct Rules {
    pub bags: Vec<Bag>,
}

/// The mathematical shape of a bag rule.
pub ghost struct BagModel {
    pub color: Seq<char>,
    pub entries: Seq<(Seq<char>, u32)>,
}

impl Bag {
    /// The contained colours and counts, as character sequences.
    pub open spec fn entries(self) -> Seq<(Seq<char>, u32)> {
        self.contains@.map_values(|p: (String, u32)| (p.0@, p.1))
    }

    /// The rule this bag states.
    pub open spec fn model(self) -> BagModel {
        BagModel { color: self.color@, entries: self.entries() }
    }
}

impl Rules {
    /// The rules as mathematical values.
    pub open spec fn model(self) -> Seq<BagModel> {
        self.bags@.map_values(|b: Bag| b.model())
    }
}

/// Index of the rule for `color`, or the table length.
pub open spec fn bag_idx(bags: Seq<BagModel>, color: Seq<char>) -> int
    decreases bags.len(),
{
    if bags.len() == 0 {
        0
    } else if bags[0].color == color {
        0
    } else {
        1 + bag_idx(bags.drop_first(), color)
    }
}

proof fn lemma_bag_idx_is(bags: Seq<BagModel>, color: Seq<char>, k: int)
    requires
        0 <= k <= bags.len(),
        k < bags.len() ==> bags[k].color == color,
        forall|j: int| 0 <= j < k ==> (#[trigger] bags[j]).color != color,
    ensures
        bag_idx(bags, color) == k,
    decreases bags.len(),
{
    if bags.len() > 0 && bags[0].color != color {
        let tail = bags.drop_first();
        assert forall|j: int| 0 <= j < k - 1 implies (#[trigger] tail[j]).color != color by {
            assert(tail[j] == bags[j + 1]);
        }
        lemma_bag_idx_is(tail, color, k - 1);
    }
}

/// Every contained colour of every rule is itself ruled.
pub open spec fn closed(bags: Seq<BagModel>) -> bool {
    forall|i: int, k: int|
        0 <= i < bags.len() && 0 <= k < bags[i].entries.len() ==> bag_idx(
            bags,
            (#[trigger] bags[i].entries[k]).0,
        ) < bags.len()
}

/// Every key of `entries` is ruled.
pub open spec fn entries_closed(bags: Seq<BagModel>, entries: Seq<(Seq<char>, u32)>) -> bool {
    forall|k: int|
        0 <= k < entries.len() ==> bag_idx(bags, (#[trigger] entries[k]).0) < bags.len()
}

/// Whether the given contents can eventually hold a bag of colour
/// `name`, following at most `fuel` nesting steps.
pub open spec fn can_reach(
    bags: Seq<BagModel>,
    entries: Seq<(Seq<char>, u32)>,
    name: Seq<char>,
    fuel: nat,
) -> bool
    decreases fuel, entries.len(),
{
    if entries.len() == 0 {
        false
    } else {
        let idx = bag_idx(bags, entries[0].0);
        entries[0].0 == name || (fuel > 0 && 0 <= idx < bags.len() && can_reach(
            bags,
            bags[idx].entries,
            name,
            (fuel - 1) as nat,
        )) || can_reach(bags, entries.drop_first(), name, fuel)
    }
}

/// How many bags the given contents amount to, all nesting counted,
/// within `fuel` steps; nothing when the fuel runs out, a colour is
/// unruled, or a sum leaves the u32 range.
pub open spec fn count_bags(
    bags: Seq<BagModel>,
    entries: Seq<(Seq<char>, u32)>,
    fuel: nat,
) -> Option<int>
    decreases fuel, entries.len(),
{
    if entries.len() == 0 {
        Some(0)
    } else {
        let cnt = entries[0].1 as int;
        let idx = bag_idx(bags, entries[0].0);
        if idx >= bags.len() || fuel == 0 {
            None
        } else {
            match (count_bags(bags, bags[idx].entries, (fuel - 1) as nat), count_bags(
                bags,
                entries.drop_first(),
                fuel,
            )) {
                (Some(inner), Some(rest)) => {
                    if cnt + cnt * inner + rest <= u32::MAX {
                        Some(cnt + cnt * inner + rest)
                    } else {
                        None
                    }
                },
                _ => None,
            }
        }
    }
}

pub proof fn lemma_count_bags_nonneg(
    bags: Seq<BagModel>,
    entries: Seq<(Seq<char>, u32)>,
    fuel: nat,
)
    ensures
        count_bags(bags, entries, fuel) matches Some(v) ==> v >= 0,
    decreases fuel, entries.len(),
{
    if entries.len() > 0 {
        let idx = bag_idx(bags, entries[0].0);
        if idx < bags.len() && fuel > 0 {
            lemma_count_bags_nonneg(bags, bags[idx].entries, (fuel - 1) as nat);
            lemma_count_bags_nonneg(bags, entries.drop_first(), fuel);
            let cnt = entries[0].1 as int;
            let inner_o = count_bags(bags, bags[idx].entries, (fuel - 1) as nat);
            if inner_o is Some && inner_o->Some_0 >= 0 {
                let inner = inner_o->Some_0;
                assert(cnt * inner >= 0) by (nonlinear_arith)
                    requires
                        cnt >= 0,
                        inner >= 0,
                ;
            }
        }
    }
}

/// Compares two string slices character by character.
fn str_eq(a: &str, b: &str) -> (r: bool)
    ensures
        r == (a@ == b@),
{
    let n = a.unicode_len();
    let m = b.unicode_len();
    if n != m {
        return false;
    }
    let mut i: usize = 0;
    while i < n
        invariant
            i <= n,
            n == a@.len(),
            n == b@.len(),
            forall|j: int| 0 <= j < i ==> a@[j] == b@[j],
        decreases n - i,
    {
        if a.get_char(i) != b.get_char(i) {
            return false;
        }
        i = i + 1;
    }
    proof {
        assert(a@ =~= b@);
    }
    true
}

/// Index of the rule for `name` in the table, or its length.
fn find_bag(rules: &Rules, name: &str) -> (r: usize)
    ensures
        r == bag_idx(rules.model(), name@),
        r <= rules.bags@.len(),
{
    let ghost bags = rules.model();
    let mut i: usize = 0;
    while i < rules.bags.len()
        invariant
            i <= bags.len(),
            bags == rules.model(),
            forall|j: int| 0 <= j < i ==> (#[trigger] bags[j]).color != name@,
        decreases bags.len() - i,
    {
        if str_eq(rules.bags[i].color.as_str(), name) {
            proof {
                assert(bags[i as int].color == name@);
                lemma_bag_idx_is(bags, name@, i as int);
            }
            return i;
        }
        i = i + 1;
    }
    proof {
        lemma_bag_idx_is(bags, name@, bags.len() as int);
    }
    rules.bags.len()
}

impl Rules {
    /// How many rules the table holds.
    pub fn len(&self) -> (r: usize)
        ensures
            r == self.bags@.len(),
    {
        self.bags.len()
    }

    /// The rule for `color`, when the table has one.
    pub fn get(&self, color: &str) -> (r: Option<&Bag>)
        ensures
            ({
                let idx = bag_idx(self.model(), color@);
                match r {
                    Some(bag) => idx < self.bags@.len() && *bag == self.bags@[idx],
                    None => idx >= self.bags@.len(),
                }
            }),
    {
        let i = find_bag(self, color);
        if i < self.bags.len() {
            Some(&self.bags[i])
        } else {
            None
        }
    }

    /// The rule at position `i` of the table.
    pub fn get_at(&self, i: usize) -> (r: &Bag)
        requires
            i < self.bags@.len(),
        ensures
            *r == self.bags@[i as int],
    {
        &self.bags[i]
    }
}

/// Whether `bag`'s contents reach `name` within `fuel` steps.
fn reaches(rules: &Rules, entries: &Vec<(String, u32)>, name: &str, fuel: usize) -> (r: bool)
    requires
        closed(rules.model()),
        entries_closed(rules.model(), entries@.map_values(|p: (String, u32)| (p.0@, p.1))),
    ensures
        r == can_reach(
            rules.model(),
            entries@.map_values(|p: (String, u32)| (p.0@, p.1)),
            name@,
            fuel as nat,
        ),
    decreases fuel, 0nat,
{
    let ghost bags = rules.model();
    let ghost ents = entries@.map_values(|p: (String, u32)| (p.0@, p.1));
    proof {
        assert(ents.skip(0) =~= ents);
    }
    let mut k: usize = 0;
    while k < entries.len()
        invariant
            k <= ents.len(),
            bags == rules.model(),
            ents == entries@.map_values(|p: (String, u32)| (p.0@, p.1)),
            closed(bags),
            entries_closed(bags, ents),
            can_reach(bags, ents, name@, fuel as nat) == can_reach(
                bags,
                ents.skip(k as int),
                name@,
                fuel as nat,
            ),
        decreases fuel, ents.len() - k,
    {
        proof {
            assert(ents.skip(k as int)[0] == ents[k as int]);
            assert(ents.skip(k as int).drop_first() =~= ents.skip(k + 1));
        }
        if str_eq(entries[k].0.as_str(), name) {
            return true;
        }
        if fuel > 0 {
            let idx = find_bag(rules, entries[k].0.as_str());
            proof {
                assert(bag_idx(bags, ents[k as int].0) < bags.len());
                assert(bags[idx as int] == rules.bags@[idx as int].model());
            }
            let child = &rules.bags[idx];
            if reaches(rules, &child.contains, name, fuel - 1) {
                return true;
            }
        }
        k = k + 1;
    }
    proof {
        assert(ents.skip(ents.len() as int).len() == 0);
    }
    false
}

/// Adds up `bag`'s contents within `fuel` steps.
fn count_from(rules: &Rules, entries: &Vec<(String, u32)>, fuel: usize) -> (r: u32)
    requires
        closed(rules.model()),
        count_bags(
            rules.model(),
            entries@.map_values(|p: (String, u32)| (p.0@, p.1)),
            fuel as nat,
        ) is Some,
    ensures
        Some(r as int) == count_bags(
            rules.model(),
            entries@.map_values(|p: (String, u32)| (p.0@, p.1)),
            fuel as nat,
        ),
    decreases fuel, 0nat,
{
    let ghost bags = rules.model();
    let ghost ents = entries@.map_values(|p: (String, u32)| (p.0@, p.1));
    let ghost total = count_bags(bags, ents, fuel as nat)->Some_0;
    let mut acc: u32 = 0;
    let mut k: usize = 0;
    proof {
        assert(ents.skip(0) =~= ents);
        lemma_count_bags_nonneg(bags, ents, fuel as nat);
        assert(total <= u32::MAX);
    }
    while k < entries.len()
        invariant
            k <= ents.len(),
            bags == rules.model(),
            ents == entries@.map_values(|p: (String, u32)| (p.0@, p.1)),
            closed(bags),
            count_bags(bags, ents, fuel as nat) == Some(total),
            0 <= total <= u32::MAX,
            count_bags(bags, ents.skip(k as int), fuel as nat) == Some(total - acc),
            acc <= total,
        decreases fuel, ents.len() - k,
    {
        let ghost rest = ents.skip(k as int);
        proof {
            assert(rest[0] == ents[k as int]);
            assert(rest.drop_first() =~= ents.skip(k + 1));
        }
        let cnt = entries[k].1;
        let idx = find_bag(rules, entries[k].0.as_str());
        proof {
            assert(bag_idx(bags, rest[0].0) == idx);
            assert(idx < bags.len() && fuel > 0);
            assert(bags[idx as int] == rules.bags@[idx as int].model());
            lemma_count_bags_nonneg(bags, bags[idx as int].entries, (fuel - 1) as nat);
            lemma_count_bags_nonneg(bags, ents.skip(k + 1), fuel as nat);
        }
        let child = &rules.bags[idx];
        let inner = count_from(rules, &child.contains, fuel - 1);
        proof {
            let inner_i = inner as int;
            let rest_i = count_bags(bags, ents.skip(k + 1), fuel as nat)->Some_0;
            assert(total - acc == cnt + cnt * inner_i + rest_i);
            assert(cnt * inner_i >= 0) by (nonlinear_arith)
                requires
                    inner_i >= 0,
            ;
        }
        acc = acc + cnt + cnt * inner;
        k = k + 1;
    }
    proof {
        assert(ents.skip(ents.len() as int).len() == 0);
    }
    acc
}

impl Bag {
    /// Whether this bag can eventually hold a bag of colour `name`,
    /// following the rule table through as many nestings as it has
    /// rules.
    pub fn can_contain(&self, name: &str, rules: &Rules) -> (r: bool)
        requires
            closed(rules.model()),
            entries_closed(rules.model(), self.entries()),
        ensures
            r == can_reach(rules.model(), self.entries(), name@, rules.bags@.len() as nat),
    {
        reaches(rules, &self.contains, name, rules.bags.len())
    }

    /// How many bags this bag must contain, nested bags counted.
    pub fn contains(&self, rules: &Rules) -> (r: u32)
        requires
            closed(rules.model()),
            count_bags(rules.model(), self.entries(), rules.bags@.len() as nat) is Some,
        ensures
            Some(r as int) == count_bags(
                rules.model(),
                self.entries(),
                rules.bags@.len() as nat,
            ),
    {
        count_from(rules, &self.contains, rules.bags.len())
    }
}

// ------------------------------------------------------------------
// parsing
// ------------------------------------------------------------------

/// A nonempty word of lowercase letters.
pub open spec fn is_lower_word(t: Seq<char>) -> bool {
    t.len() > 0 && forall|i: int| 0 <= i < t.len() ==> 97 <= (#[trigger] t[i]) as int <= 122
}

/// The colour a line rules: its first two words.
pub open spec fn line_color(s: Seq<char>) -> Seq<char> {
    text::tokens_of(s)[0] + seq![' '] + text::tokens_of(s)[1]
}

/// The colour named by the two words after the count at token `k`.
pub open spec fn pair_color(toks: Seq<Seq<char>>, k: int) -> Seq<char> {
    toks[k + 1] + seq![' '] + toks[k + 2]
}

/// The contained bags read from token `k` on: every digit token with
/// the two colour words after it.
pub open spec fn entries_scan(toks: Seq<Seq<char>>, k: int) -> Seq<(Seq<char>, u32)>
    decreases toks.len() + 3 - k,
{
    if k < 0 || k >= toks.len() {
        Seq::empty()
    } else if text::is_digits(toks[k]) {
        seq![(pair_color(toks, k), text::dec_value(toks[k]) as u32)] + entries_scan(toks, k + 3)
    } else {
        entries_scan(toks, k + 1)
    }
}

/// Shape of a rule line as the parser reads it: two colour words
/// first, and two colour words after every count, which fits a u32.
pub open spec fn wf_bag_line(s: Seq<char>) -> bool {
    let toks = text::tokens_of(s);
    &&& toks.len() >= 2
    &&& is_lower_word(toks[0])
    &&& is_lower_word(toks[1])
    &&& forall|k: int|
        0 <= k < toks.len() && text::is_digits(#[trigger] toks[k]) ==> k + 2 < toks.len()
            && is_lower_word(toks[k + 1]) && is_lower_word(toks[k + 2]) && text::dec_value(
            toks[k],
        ) <= u32::MAX
}

impl Bag {
    /// Parses one rule line.
    pub fn parse(input: &str) -> (r: Bag)
        requires
            wf_bag_line(input@),
        ensures
            r.color@ == line_color(input@),
            r.entries() == entries_scan(text::tokens_of(input@), 0),
    {
        let toks = text::split_tokens(input);
        let ghost tv = text::tokens_of(input@);
        proof {
            assert(toks@[0]@ == tv[0]);
            assert(toks@[1]@ == tv[1]);
            reveal_strlit(" ");
            assert(" "@ =~= seq![' ']);
        }
        let mut color = toks[0].clone();
        color.append(" ");
        color.append(toks[1].as_str());
        proof {
            assert(color@ =~= line_color(input@));
        }
        let mut contains: Vec<(String, u32)> = Vec::new();
        let mut k: usize = 0;
        while k < toks.len()
            invariant
                k <= toks@.len(),
                toks.deep_view() == tv,
                tv == text::tokens_of(input@),
                wf_bag_line(input@),
                entries_scan(tv, 0) == contains@.map_values(|p: (String, u32)| (p.0@, p.1))
                    + entries_scan(tv, k as int),
            decreases toks@.len() - k,
        {
            proof {
                assert(toks@[k as int]@ == tv[k as int]);
            }
            let t = toks[k].as_str();
            let n = t.unicode_len();
            proof {
                assert(t@.subrange(0, n as int) =~= t@);
            }
            match text::parse_u64_range(t, 0, n) {
                Some(v) => {
                    proof {
                        assert(text::is_digits(tv[k as int]));
                        assert(toks@[k + 1]@ == tv[k + 1]);
                        assert(toks@[k + 2]@ == tv[k + 2]);
                        reveal_strlit(" ");
                    }
                    let mut cname = toks[k + 1].clone();
                    cname.append(" ");
                    cname.append(toks[k + 2].as_str());
                    proof {
                        assert(cname@ =~= pair_color(tv, k as int));
                    }
                    contains.push((cname, v as u32));
                    proof {
                        assert(entries_scan(tv, 0) =~= contains@.map_values(
                            |p: (String, u32)| (p.0@, p.1),
                        ) + entries_scan(tv, k + 3));
                    }
                    k = k + 3;
                },
                None => {
                    proof {
                        assert(!text::is_digits(tv[k as int]));
                        assert(entries_scan(tv, 0) =~= contains@.map_values(
                            |p: (String, u32)| (p.0@, p.1),
                        ) + entries_scan(tv, k + 1));
                    }
                    k = k + 1;
                },
            }
        }
        let r = Bag { color, contains };
        proof {
            assert(r.entries() =~= entries_scan(tv, 0));
        }
        r
    }
}

/// Every line of the listing is a well-formed rule line.
pub open spec fn wf_rules_listing(s: Seq<char>) -> bool {
    forall|i: int|
        0 <= i < text::spec_lines(s).len() ==> wf_bag_line(#[trigger] text::spec_lines(s)[i])
}

/// The rule table a listing denotes.
pub open spec fn listing_model(s: Seq<char>) -> Seq<BagModel> {
    text::spec_lines(s).map_values(
        |l: Seq<char>|
            BagModel { color: line_color(l), entries: entries_scan(text::tokens_of(l), 0) },
    )
}

/// Parses every line of the listing into the rule table.
pub fn parse_input(input: &str) -> (r: Rules)
    requires
        wf_rules_listing(input@),
    ensures
        r.model() == listing_model(input@),
        r.bags@.len() == text::spec_lines(input@).len(),
{
    let lines = text::split_lines(input);
    let mut bags: Vec<Bag> = Vec::new();
    let mut i: usize = 0;
    while i < lines.len()
        invariant
            i <= lines@.len(),
            lines.deep_view() == text::spec_lines(input@),
            wf_rules_listing(input@),
            bags@.len() == i,
            forall|j: int| 0 <= j < i ==> (#[trigger] bags@[j]).model() == listing_model(input@)[j],
        decreases lines@.len() - i,
    {
        proof {
            assert(lines@[i as int]@ == lines.deep_view()[i as int]);
        }
        bags.push(Bag::parse(lines[i].as_str()));
        i = i + 1;
    }
    let r = Rules { bags };
    proof {
        assert(r.model() =~= listing_model(input@));
    }
    r
}

/// How many rules from `i` on can eventually hold a shiny gold bag.
pub open spec fn holders_from(bags: Seq<BagModel>, i: int) -> int
    decreases bags.len() - i,
{
    if i < 0 || i >= bags.len() {
        0
    } else {
        (if can_reach(bags, bags[i].entries, "shiny gold"@, bags.len() as nat) {
            1int
        } else {
            0int
        }) + holders_from(bags, i + 1)
    }
}

/// Answer of the first task: how many bag colours can eventually
/// hold a shiny gold bag.
pub fn task1(input: &str) -> (r: usize)
    requires
        wf_rules_listing(input@),
        closed(listing_model(input@)),
    ensures
        r == holders_from(listing_model(input@), 0),
{
    let rules = parse_input(input);
    let ghost bags = listing_model(input@);
    let mut count: usize = 0;
    let mut i: usize = 0;
    while i < rules.bags.len()
        invariant
            i <= bags.len(),
            bags == listing_model(input@),
            rules.model() == bags,
            rules.bags@.len() == bags.len(),
            closed(bags),
            count <= i,
            count + holders_from(bags, i as int) == holders_from(bags, 0),
        decreases bags.len() - i,
    {
        proof {
            assert(rules.model()[i as int] == rules.bags@[i as int].model());
            assert(entries_closed(bags, bags[i as int].entries));
        }
        let bag = &rules.bags[i];
        if bag.can_contain("shiny gold", &rules) {
            count = count + 1;
        }
        i = i + 1;
    }
    count
}

/// Answer of the second task: how many bags a shiny gold bag must
/// contain, nested bags counted.
pub fn task2(input: &str) -> (r: u32)
    requires
        wf_rules_listing(input@),
        closed(listing_model(input@)),
        bag_idx(listing_model(input@), "shiny gold"@) < listing_model(input@).len(),
        count_bags(
            listing_model(input@),
            listing_model(input@)[bag_idx(listing_model(input@), "shiny gold"@)].entries,
            listing_model(input@).len() as nat,
        ) is Some,
    ensures
        Some(r as int) == count_bags(
            listing_model(input@),
            listing_model(input@)[bag_idx(listing_model(input@), "shiny gold"@)].entries,
            listing_model(input@).len() as nat,
        ),
{
    let rules = parse_input(input);
    let i = find_bag(&rules, "shiny gold");
    proof {
        assert(rules.model()[i as int] == rules.bags@[i as int].model());
    }
    let bag = &rules.bags[i];
    bag.contains(&rules)
}

/// The calendar day this module solves.
pub struct Day7 {}

impl Day7 {
    /// The day's number.
    pub fn get_day_number(&self) -> (r: usize)
        ensures
            r == 7,
    {
        7
    }
}

} // verus!
