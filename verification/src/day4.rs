//! Passport document checks: the input splits into documents at
//! empty lines; each document is a bag of `key:value` fields.  A
//! document passes when every required field is present — and, read
//! strictly, when each such field also satisfies its own value rule.

use vstd::prelude::*;
use vstd::string::StrSliceExecFns;
use vstd::string::StringExecFns;
use crate::text;

verus! {

/// The seven required fields of a passport.
#[derive(Clone, Copy, PartialEq, Eq, Structural, Debug)]
pub enum FieldRule {
    BirthYear,
    IssueYear,
    ExpirationDate,
    Height,
    HairColour,
    EyeColour,
    PassportId,
}

/// The three-letter key of a required field.
pub open spec fn rule_id(rule: FieldRule) -> Seq<char> {
    match rule {
        FieldRule::BirthYear => seq!['b', 'y', 'r'],
        FieldRule::IssueYear => seq!['i', 'y', 'r'],
        FieldRule::ExpirationDate => seq!['e', 'y', 'r'],
        FieldRule::Height => seq!['h', 'g', 't'],
        FieldRule::HairColour => seq!['h', 'c', 'l'],
        FieldRule::EyeColour => seq!['e', 'c', 'l'],
        FieldRule::PassportId => seq!['p', 'i', 'd'],
    }
}

/// A lowercase hexadecimal digit.
pub open spec fn is_hex_lower(c: char) -> bool {
    text::is_digit(c) || (97 <= c as int && c as int <= 102)
}

/// `key:` with a four-digit year between `lo` and `hi`, nothing more.
pub open spec fn year_match(s: Seq<char>, id: Seq<char>, lo: int, hi: int) -> bool {
    &&& s.len() == 8
    &&& s.subrange(0, 3) == id
    &&& s[3] == ':'
    &&& text::is_digits(s.subrange(4, 8))
    &&& lo <= text::dec_value(s.subrange(4, 8)) <= hi
}

/// `hgt:` with 150 to 193 centimetres or 59 to 76 inches.
pub open spec fn height_match(s: Seq<char>) -> bool {
    &&& s.len() >= 4
    &&& s.subrange(0, 3) == rule_id(FieldRule::Height)
    &&& s[3] == ':'
    &&& ((s.len() == 9 && text::is_digits(s.subrange(4, 7)) && 150 <= text::dec_value(
        s.subrange(4, 7),
    ) <= 193 && s[7] == 'c' && s[8] == 'm') || (s.len() == 8 && text::is_digits(
        s.subrange(4, 6),
    ) && 59 <= text::dec_value(s.subrange(4, 6)) <= 76 && s[6] == 'i' && s[7] == 'n'))
}

/// `hcl:#` with six lowercase hexadecimal digits.
pub open spec fn hair_match(s: Seq<char>) -> bool {
    &&& s.len() == 11
    &&& s.subrange(0, 3) == rule_id(FieldRule::HairColour)
    &&& s[3] == ':'
    &&& s[4] == '#'
    &&& forall|i: int| 5 <= i < 11 ==> is_hex_lower(#[trigger] s[i])
}

/// `ecl:` with one of the seven eye colour words.
pub open spec fn eye_match(s: Seq<char>) -> bool {
    &&& s.len() == 7
    &&& s.subrange(0, 3) == rule_id(FieldRule::EyeColour)
    &&& s[3] == ':'
    &&& (s.subrange(4, 7) == seq!['a', 'm', 'b'] || s.subrange(4, 7) == seq!['b', 'l', 'u']
        || s.subrange(4, 7) == seq!['b', 'r', 'n'] || s.subrange(4, 7) == seq!['g', 'r', 'y']
        || s.subrange(4, 7) == seq!['g', 'r', 'n'] || s.subrange(4, 7) == seq!['h', 'z', 'l']
        || s.subrange(4, 7) == seq!['o', 't', 'h'])
}

/// `pid:` with exactly nine digits.
pub open spec fn pid_match(s: Seq<char>) -> bool {
    &&& s.len() == 13
    &&& s.subrange(0, 3) == rule_id(FieldRule::PassportId)
    &&& s[3] == ':'
    &&& text::is_digits(s.subrange(4, 13))
}

/// The value rule of a required field, on a whole `key:value` token.
pub open spec fn rule_match(rule: FieldRule, s: Seq<char>) -> bool {
    match rule {
        FieldRule::BirthYear => year_match(s, rule_id(rule), 1920, 2002),
        FieldRule::IssueYear => year_match(s, rule_id(rule), 2010, 2020),
        FieldRule::ExpirationDate => year_match(s, rule_id(rule), 2020, 2030),
        FieldRule::Height => height_match(s),
        FieldRule::HairColour => hair_match(s),
        FieldRule::EyeColour => eye_match(s),
        FieldRule::PassportId => pid_match(s),
    }
}

/// A token settles a field with key `id`: it mentions `id:` and, read
/// strictly, satisfies the field's value rule.
pub open spec fn dfield_valid(id: Seq<char>, rule: FieldRule, token: Seq<char>, strict: bool)
    -> bool {
    text::has_sub(token, id.push(':')) && (!strict || rule_match(rule, token))
}

/// Some token of the document settles the required field.
pub open spec fn field_satisfied(tokens: Seq<Seq<char>>, rule: FieldRule, strict: bool) -> bool {
    exists|j: int|
        0 <= j < tokens.len() && dfield_valid(rule_id(rule), rule, #[trigger] tokens[j], strict)
}

/// All seven required fields are settled.
pub open spec fn group_is_passport(tokens: Seq<Seq<char>>, strict: bool) -> bool {
    &&& field_satisfied(tokens, FieldRule::BirthYear, strict)
    &&& field_satisfied(tokens, FieldRule::IssueYear, strict)
    &&& field_satisfied(tokens, FieldRule::ExpirationDate, strict)
    &&& field_satisfied(tokens, FieldRule::Height, strict)
    &&& field_satisfied(tokens, FieldRule::HairColour, strict)
    &&& field_satisfied(tokens, FieldRule::EyeColour, strict)
    &&& field_satisfied(tokens, FieldRule::PassportId, strict)
}

/// How many documents from group `i` on are passports.
pub open spec fn passport_count(s: Seq<char>, strict: bool, i: int) -> int
    decreases text::groups_of(s).len() - i,
{
    if i < 0 || i >= text::groups_of(s).len() {
        0
    } else {
        (if group_is_passport(text::tokens_of(text::groups_of(s)[i]), strict) {
            1int
        } else {
            0int
        }) + passport_count(s, strict, i + 1)
    }
}

/// One document: its whitespace-separated `key:value` fields.
pub struct Document {
    pub fields: Vec<String>,
}

/// A required field: its key and its value rule.
pub struct DocumentField {
    pub id: String,
    pub rule: FieldRule,
}

/// A document type: the fields a document must carry.
pub struct DocumentType {
    pub required_fields: Vec<DocumentField>,
}

/// Checks a four-digit year token.
fn year_check(doc: &str, a: char, b: char, c: char, lo: u64, hi: u64) -> (r: bool)
    ensures
        r == year_match(doc@, seq![a, b, c], lo as int, hi as int),
{
    let n = doc.unicode_len();
    if n != 8 {
        return false;
    }
    if !(doc.get_char(0) == a && doc.get_char(1) == b && doc.get_char(2) == c && doc.get_char(3)
        == ':') {
        proof {
            assert(doc@.subrange(0, 3) == seq![a, b, c] ==> doc@.subrange(0, 3)[0] == a
                && doc@.subrange(0, 3)[1] == b && doc@.subrange(0, 3)[2] == c);
        }
        return false;
    }
    proof {
        assert(doc@.subrange(0, 3) =~= seq![a, b, c]);
    }
    match text::parse_u64_range(doc, 4, 8) {
        Some(v) => lo <= v && v <= hi,
        None => {
            proof {
                if text::is_digits(doc@.subrange(4, 8)) {
                    lemma_digit_value_bound(doc@.subrange(4, 8));
                    assert(ten_to(4) == 10000) by {
                        reveal_with_fuel(ten_to, 5);
                    }
                }
            }
            false
        },
    }
}

/// Checks a height token.
fn height_check(doc: &str) -> (r: bool)
    ensures
        r == height_match(doc@),
{
    let n = doc.unicode_len();
    if n != 8 && n != 9 {
        return false;
    }
    if !(doc.get_char(0) == 'h' && doc.get_char(1) == 'g' && doc.get_char(2) == 't'
        && doc.get_char(3) == ':') {
        proof {
            assert(doc@.subrange(0, 3) == rule_id(FieldRule::Height) ==> doc@.subrange(0, 3)[0]
                == 'h' && doc@.subrange(0, 3)[1] == 'g' && doc@.subrange(0, 3)[2] == 't');
        }
        return false;
    }
    proof {
        assert(doc@.subrange(0, 3) =~= rule_id(FieldRule::Height));
    }
    if n == 9 {
        if !(doc.get_char(7) == 'c' && doc.get_char(8) == 'm') {
            return false;
        }
        match text::parse_u64_range(doc, 4, 7) {
            Some(v) => 150 <= v && v <= 193,
            None => {
                proof {
                    if text::is_digits(doc@.subrange(4, 7)) {
                        lemma_digit_value_bound(doc@.subrange(4, 7));
                        assert(ten_to(3) == 1000) by {
                            reveal_with_fuel(ten_to, 4);
                        }
                    }
                }
                false
            },
        }
    } else {
        if !(doc.get_char(6) == 'i' && doc.get_char(7) == 'n') {
            return false;
        }
        match text::parse_u64_range(doc, 4, 6) {
            Some(v) => 59 <= v && v <= 76,
            None => {
                proof {
                    if text::is_digits(doc@.subrange(4, 6)) {
                        lemma_digit_value_bound(doc@.subrange(4, 6));
                        assert(ten_to(2) == 100) by {
                            reveal_with_fuel(ten_to, 3);
                        }
                    }
                }
                false
            },
        }
    }
}

/// Checks a hair colour token.
fn hair_check(doc: &str) -> (r: bool)
    ensures
        r == hair_match(doc@),
{
    let n = doc.unicode_len();
    if n != 11 {
        return false;
    }
    if !(doc.get_char(0) == 'h' && doc.get_char(1) == 'c' && doc.get_char(2) == 'l'
        && doc.get_char(3) == ':' && doc.get_char(4) == '#') {
        proof {
            assert(doc@.subrange(0, 3) == rule_id(FieldRule::HairColour) ==> doc@.subrange(0, 3)[0]
                == 'h' && doc@.subrange(0, 3)[1] == 'c' && doc@.subrange(0, 3)[2] == 'l');
        }
        return false;
    }
    proof {
        assert(doc@.subrange(0, 3) =~= rule_id(FieldRule::HairColour));
    }
    let mut i: usize = 5;
    while i < 11
        invariant
            5 <= i <= 11,
            doc@.len() == 11,
            forall|j: int| 5 <= j < i ==> is_hex_lower(#[trigger] doc@[j]),
        decreases 11 - i,
    {
        let c = doc.get_char(i);
        let u = c as u32;
        if !((48 <= u && u <= 57) || (97 <= u && u <= 102)) {
            return false;
        }
        i = i + 1;
    }
    true
}

/// Checks whether the last three characters of a seven-character
/// token spell the given word.
fn word_check(doc: &str, a: char, b: char, c: char) -> (r: bool)
    requires
        doc@.len() == 7,
    ensures
        r == (doc@.subrange(4, 7) == seq![a, b, c]),
{
    let hit = doc.get_char(4) == a && doc.get_char(5) == b && doc.get_char(6) == c;
    proof {
        if hit {
            assert(doc@.subrange(4, 7) =~= seq![a, b, c]);
        } else {
            assert(doc@.subrange(4, 7) == seq![a, b, c] ==> doc@.subrange(4, 7)[0] == a
                && doc@.subrange(4, 7)[1] == b && doc@.subrange(4, 7)[2] == c);
        }
    }
    hit
}

/// Checks an eye colour token.
fn eye_check(doc: &str) -> (r: bool)
    ensures
        r == eye_match(doc@),
{
    let n = doc.unicode_len();
    if n != 7 {
        return false;
    }
    if !(doc.get_char(0) == 'e' && doc.get_char(1) == 'c' && doc.get_char(2) == 'l'
        && doc.get_char(3) == ':') {
        proof {
            assert(doc@.subrange(0, 3) == rule_id(FieldRule::EyeColour) ==> doc@.subrange(0, 3)[0]
                == 'e' && doc@.subrange(0, 3)[1] == 'c' && doc@.subrange(0, 3)[2] == 'l');
        }
        return false;
    }
    proof {
        assert(doc@.subrange(0, 3) =~= rule_id(FieldRule::EyeColour));
    }
    word_check(doc, 'a', 'm', 'b') || word_check(doc, 'b', 'l', 'u') || word_check(
        doc,
        'b',
        'r',
        'n',
    ) || word_check(doc, 'g', 'r', 'y') || word_check(doc, 'g', 'r', 'n') || word_check(
        doc,
        'h',
        'z',
        'l',
    ) || word_check(doc, 'o', 't', 'h')
}

/// Checks a passport id token.
fn pid_check(doc: &str) -> (r: bool)
    ensures
        r == pid_match(doc@),
{
    let n = doc.unicode_len();
    if n != 13 {
        return false;
    }
    if !(doc.get_char(0) == 'p' && doc.get_char(1) == 'i' && doc.get_char(2) == 'd'
        && doc.get_char(3) == ':') {
        proof {
            assert(doc@.subrange(0, 3) == rule_id(FieldRule::PassportId) ==> doc@.subrange(0, 3)[0]
                == 'p' && doc@.subrange(0, 3)[1] == 'i' && doc@.subrange(0, 3)[2] == 'd');
        }
        return false;
    }
    proof {
        assert(doc@.subrange(0, 3) =~= rule_id(FieldRule::PassportId));
    }
    match text::parse_u64_range(doc, 4, 13) {
        Some(_) => true,
        None => {
            proof {
                if text::is_digits(doc@.subrange(4, 13)) {
                    lemma_digit_value_bound(doc@.subrange(4, 13));
                    assert(ten_to(9) == 1_000_000_000) by {
                        reveal_with_fuel(ten_to, 10);
                    }
                }
            }
            false
        },
    }
}

/// Ten to the `n`th.
pub open spec fn ten_to(n: nat) -> int
    decreases n,
{
    if n == 0 {
        1
    } else {
        10 * ten_to((n - 1) as nat)
    }
}

/// A digit string is worth less than ten to its length.
proof fn lemma_digit_value_bound(s: Seq<char>)
    requires
        forall|i: int| 0 <= i < s.len() ==> text::is_digit(#[trigger] s[i]),
    ensures
        0 <= text::dec_value(s) < ten_to(s.len()),
    decreases s.len(),
{
    if s.len() > 0 {
        lemma_digit_value_bound(s.drop_last());
    }
}

impl DocumentField {
    /// Whether the token satisfies this field's value rule.
    pub fn valid_by_rule(&self, doc: &str) -> (r: bool)
        ensures
            r == rule_match(self.rule, doc@),
    {
        match self.rule {
            FieldRule::BirthYear => year_check(doc, 'b', 'y', 'r', 1920, 2002),
            FieldRule::IssueYear => year_check(doc, 'i', 'y', 'r', 2010, 2020),
            FieldRule::ExpirationDate => year_check(doc, 'e', 'y', 'r', 2020, 2030),
            FieldRule::Height => height_check(doc),
            FieldRule::HairColour => hair_check(doc),
            FieldRule::EyeColour => eye_check(doc),
            FieldRule::PassportId => pid_check(doc),
        }
    }

    /// Whether the token settles this field: it mentions the key and,
    /// read strictly, satisfies the value rule.
    pub fn is_valid(&self, doc: &str, strict: bool) -> (r: bool)
        ensures
            r == dfield_valid(self.id@, self.rule, doc@, strict),
    {
        let needle = self.id.clone().concat(":");
        proof {
            reveal_strlit(":");
            assert(needle@ =~= self.id@.push(':'));
        }
        if !text::contains_str(doc, needle.as_str()) {
            false
        } else {
            !strict || self.valid_by_rule(doc)
        }
    }
}

/// Some field token of the document settles the field with this key
/// and rule.
pub open spec fn doc_field_satisfied(
    doc_fields: Seq<String>,
    id: Seq<char>,
    rule: FieldRule,
    strict: bool,
) -> bool {
    exists|j: int|
        0 <= j < doc_fields.len() && dfield_valid(id, rule, (#[trigger] doc_fields[j])@, strict)
}

/// `doc_field_satisfied` and `field_satisfied` agree when the tokens
/// are the views of the document's fields.
proof fn lemma_satisfied_view(
    doc_fields: Seq<String>,
    tokens: Seq<Seq<char>>,
    rule: FieldRule,
    strict: bool,
)
    requires
        doc_fields.len() == tokens.len(),
        forall|j: int| 0 <= j < tokens.len() ==> (#[trigger] doc_fields[j])@ == tokens[j],
    ensures
        doc_field_satisfied(doc_fields, rule_id(rule), rule, strict) == field_satisfied(
            tokens,
            rule,
            strict,
        ),
{
    if doc_field_satisfied(doc_fields, rule_id(rule), rule, strict) {
        let j = choose|j: int|
            0 <= j < doc_fields.len() && dfield_valid(
                rule_id(rule),
                rule,
                (#[trigger] doc_fields[j])@,
                strict,
            );
        assert(dfield_valid(rule_id(rule), rule, tokens[j], strict));
        assert(field_satisfied(tokens, rule, strict));
    }
    if field_satisfied(tokens, rule, strict) {
        let j = choose|j: int|
            0 <= j < tokens.len() && dfield_valid(rule_id(rule), rule, #[trigger] tokens[j], strict);
        assert(dfield_valid(rule_id(rule), rule, doc_fields[j]@, strict));
        assert(doc_field_satisfied(doc_fields, rule_id(rule), rule, strict));
    }
}

impl DocumentType {
    /// Whether the document settles every required field.
    pub fn document_is_valid_type(&self, doc: &Document, strict: bool) -> (r: bool)
        ensures
            r == (forall|i: int|
                0 <= i < self.required_fields@.len() ==> doc_field_satisfied(
                    doc.fields@,
                    (#[trigger] self.required_fields@[i]).id@,
                    self.required_fields@[i].rule,
                    strict,
                )),
    {
        let mut i: usize = 0;
        while i < self.required_fields.len()
            invariant
                i <= self.required_fields@.len(),
                forall|k: int|
                    0 <= k < i ==> doc_field_satisfied(
                        doc.fields@,
                        (#[trigger] self.required_fields@[k]).id@,
                        self.required_fields@[k].rule,
                        strict,
                    ),
            decreases self.required_fields@.len() - i,
        {
            let field = &self.required_fields[i];
            let mut hit: bool = false;
            let mut j: usize = 0;
            while !hit && j < doc.fields.len()
                invariant
                    j <= doc.fields@.len(),
                    *field == self.required_fields@[i as int],
                    i < self.required_fields@.len(),
                    hit ==> doc_field_satisfied(doc.fields@, field.id@, field.rule, strict),
                    !hit ==> forall|q: int|
                        0 <= q < j ==> !dfield_valid(
                            field.id@,
                            field.rule,
                            (#[trigger] doc.fields@[q])@,
                            strict,
                        ),
                decreases doc.fields@.len() - j + (if hit {
                    0int
                } else {
                    1int
                }),
            {
                if field.is_valid(doc.fields[j].as_str(), strict) {
                    proof {
                        assert(dfield_valid(
                            field.id@,
                            field.rule,
                            (doc.fields@[j as int])@,
                            strict,
                        ));
                    }
                    hit = true;
                } else {
                    j = j + 1;
                }
            }
            if !hit {
                proof {
                    assert(!doc_field_satisfied(doc.fields@, field.id@, field.rule, strict));
                }
                return false;
            }
            i = i + 1;
        }
        true
    }
}

impl Document {
    /// Whether this document is a passport of the given type.
    pub fn is_passport(&self, doc_type: &DocumentType, strict: bool) -> (r: bool)
        ensures
            r == (forall|i: int|
                0 <= i < doc_type.required_fields@.len() ==> doc_field_satisfied(
                    self.fields@,
                    (#[trigger] doc_type.required_fields@[i]).id@,
                    doc_type.required_fields@[i].rule,
                    strict,
                )),
    {
        doc_type.document_is_valid_type(self, strict)
    }
}

/// Builds the passport type: the seven required fields, each with
/// its key and value rule.
pub fn get_passport() -> (r: DocumentType)
    ensures
        r.required_fields@.len() == 7,
        r.required_fields@[0].id@ == rule_id(FieldRule::BirthYear),
        r.required_fields@[0].rule == FieldRule::BirthYear,
        r.required_fields@[1].id@ == rule_id(FieldRule::IssueYear),
        r.required_fields@[1].rule == FieldRule::IssueYear,
        r.required_fields@[2].id@ == rule_id(FieldRule::ExpirationDate),
        r.required_fields@[2].rule == FieldRule::ExpirationDate,
        r.required_fields@[3].id@ == rule_id(FieldRule::Height),
        r.required_fields@[3].rule == FieldRule::Height,
        r.required_fields@[4].id@ == rule_id(FieldRule::HairColour),
        r.required_fields@[4].rule == FieldRule::HairColour,
        r.required_fields@[5].id@ == rule_id(FieldRule::EyeColour),
        r.required_fields@[5].rule == FieldRule::EyeColour,
        r.required_fields@[6].id@ == rule_id(FieldRule::PassportId),
        r.required_fields@[6].rule == FieldRule::PassportId,
{
    proof {
        reveal_strlit("byr");
        reveal_strlit("iyr");
        reveal_strlit("eyr");
        reveal_strlit("hgt");
        reveal_strlit("hcl");
        reveal_strlit("ecl");
        reveal_strlit("pid");
    }
    let birth_year = DocumentField { id: String::from_str("byr"), rule: FieldRule::BirthYear };
    let issue_year = DocumentField { id: String::from_str("iyr"), rule: FieldRule::IssueYear };
    let expiration_date = DocumentField {
        id: String::from_str("eyr"),
        rule: FieldRule::ExpirationDate,
    };
    let height = DocumentField { id: String::from_str("hgt"), rule: FieldRule::Height };
    let hair_colour = DocumentField { id: String::from_str("hcl"), rule: FieldRule::HairColour };
    let eye_colour = DocumentField { id: String::from_str("ecl"), rule: FieldRule::EyeColour };
    let passport_id = DocumentField { id: String::from_str("pid"), rule: FieldRule::PassportId };
    proof {
        assert(birth_year.id@ =~= rule_id(FieldRule::BirthYear));
        assert(issue_year.id@ =~= rule_id(FieldRule::IssueYear));
        assert(expiration_date.id@ =~= rule_id(FieldRule::ExpirationDate));
        assert(height.id@ =~= rule_id(FieldRule::Height));
        assert(hair_colour.id@ =~= rule_id(FieldRule::HairColour));
        assert(eye_colour.id@ =~= rule_id(FieldRule::EyeColour));
        assert(passport_id.id@ =~= rule_id(FieldRule::PassportId));
    }
    let mut required_fields: Vec<DocumentField> = Vec::new();
    required_fields.push(birth_year);
    required_fields.push(issue_year);
    required_fields.push(expiration_date);
    required_fields.push(height);
    required_fields.push(hair_colour);
    required_fields.push(eye_colour);
    required_fields.push(passport_id);
    DocumentType { required_fields }
}

/// Splits the input into documents at empty lines; a document's
/// fields are its whitespace-separated tokens.
pub fn input_to_documents(input: &str) -> (r: Vec<Document>)
    ensures
        r@.len() == text::groups_of(input@).len(),
        forall|j: int|
            0 <= j < r@.len() ==> (#[trigger] r@[j]).fields.deep_view() == text::tokens_of(
                text::groups_of(input@)[j],
            ),
{
    let groups = text::split_groups(input);
    let mut r: Vec<Document> = Vec::new();
    let mut i: usize = 0;
    while i < groups.len()
        invariant
            i <= groups@.len(),
            groups.deep_view() == text::groups_of(input@),
            r@.len() == i,
            forall|j: int|
                0 <= j < i ==> (#[trigger] r@[j]).fields.deep_view() == text::tokens_of(
                    text::groups_of(input@)[j],
                ),
        decreases groups@.len() - i,
    {
        proof {
            assert(groups@[i as int]@ == groups.deep_view()[i as int]);
        }
        let fields = text::split_tokens(groups[i].as_str());
        r.push(Document { fields });
        i = i + 1;
    }
    r
}

/// Parses the input into its documents.
pub fn get_input(input: &str) -> (r: Vec<Document>)
    ensures
        r@.len() == text::groups_of(input@).len(),
        forall|j: int|
            0 <= j < r@.len() ==> (#[trigger] r@[j]).fields.deep_view() == text::tokens_of(
                text::groups_of(input@)[j],
            ),
{
    input_to_documents(input)
}

/// Answer of a task: how many documents of the input are passports —
/// every required field present, and, read strictly, each satisfying
/// its value rule.
pub fn task(input: &str, strict: bool) -> (r: usize)
    ensures
        r == passport_count(input@, strict, 0),
{
    let documents = get_input(input);
    let passport = get_passport();
    let mut count: usize = 0;
    let mut i: usize = 0;
    while i < documents.len()
        invariant
            i <= documents@.len(),
            documents@.len() == text::groups_of(input@).len(),
            forall|j: int|
                0 <= j < documents@.len() ==> (#[trigger] documents@[j]).fields.deep_view()
                    == text::tokens_of(text::groups_of(input@)[j]),
            passport.required_fields@.len() == 7,
            passport.required_fields@[0].id@ == rule_id(FieldRule::BirthYear),
            passport.required_fields@[0].rule == FieldRule::BirthYear,
            passport.required_fields@[1].id@ == rule_id(FieldRule::IssueYear),
            passport.required_fields@[1].rule == FieldRule::IssueYear,
            passport.required_fields@[2].id@ == rule_id(FieldRule::ExpirationDate),
            passport.required_fields@[2].rule == FieldRule::ExpirationDate,
            passport.required_fields@[3].id@ == rule_id(FieldRule::Height),
            passport.required_fields@[3].rule == FieldRule::Height,
            passport.required_fields@[4].id@ == rule_id(FieldRule::HairColour),
            passport.required_fields@[4].rule == FieldRule::HairColour,
            passport.required_fields@[5].id@ == rule_id(FieldRule::EyeColour),
            passport.required_fields@[5].rule == FieldRule::EyeColour,
            passport.required_fields@[6].id@ == rule_id(FieldRule::PassportId),
            passport.required_fields@[6].rule == FieldRule::PassportId,
            count <= i,
            count + passport_count(input@, strict, i as int) == passport_count(input@, strict, 0),
        decreases documents@.len() - i,
    {
        let ghost tokens = text::tokens_of(text::groups_of(input@)[i as int]);
        let ghost dfs = documents@[i as int].fields@;
        proof {
            assert(documents@[i as int].fields.deep_view() == tokens);
            assert(dfs.len() == tokens.len());
            assert forall|j: int| 0 <= j < tokens.len() implies (#[trigger] dfs[j])@
                == tokens[j] by {
                assert(dfs[j]@ == documents@[i as int].fields.deep_view()[j]);
            }
            lemma_satisfied_view(dfs, tokens, FieldRule::BirthYear, strict);
            lemma_satisfied_view(dfs, tokens, FieldRule::IssueYear, strict);
            lemma_satisfied_view(dfs, tokens, FieldRule::ExpirationDate, strict);
            lemma_satisfied_view(dfs, tokens, FieldRule::Height, strict);
            lemma_satisfied_view(dfs, tokens, FieldRule::HairColour, strict);
            lemma_satisfied_view(dfs, tokens, FieldRule::EyeColour, strict);
            lemma_satisfied_view(dfs, tokens, FieldRule::PassportId, strict);
        }
        let ok = documents[i].is_passport(&passport, strict);
        proof {
            let fields = passport.required_fields@;
            if ok {
                assert(doc_field_satisfied(dfs, fields[0].id@, fields[0].rule, strict));
                assert(doc_field_satisfied(dfs, fields[1].id@, fields[1].rule, strict));
                assert(doc_field_satisfied(dfs, fields[2].id@, fields[2].rule, strict));
                assert(doc_field_satisfied(dfs, fields[3].id@, fields[3].rule, strict));
                assert(doc_field_satisfied(dfs, fields[4].id@, fields[4].rule, strict));
                assert(doc_field_satisfied(dfs, fields[5].id@, fields[5].rule, strict));
                assert(doc_field_satisfied(dfs, fields[6].id@, fields[6].rule, strict));
                assert(group_is_passport(tokens, strict));
            } else {
                let bad = choose|i2: int|
                    0 <= i2 < fields.len() && !doc_field_satisfied(
                        dfs,
                        (#[trigger] fields[i2]).id@,
                        fields[i2].rule,
                        strict,
                    );
                assert(fields[bad].id@ == rule_id(fields[bad].rule)) by {
                    if bad == 0 {
                    } else if bad == 1 {
                    } else if bad == 2 {
                    } else if bad == 3 {
                    } else if bad == 4 {
                    } else if bad == 5 {
                    } else {
                        assert(bad == 6);
                    }
                }
                assert(!field_satisfied(tokens, fields[bad].rule, strict));
                assert(!group_is_passport(tokens, strict)) by {
                    if bad == 0 {
                    } else if bad == 1 {
                    } else if bad == 2 {
                    } else if bad == 3 {
                    } else if bad == 4 {
                    } else if bad == 5 {
                    } else {
                        assert(bad == 6);
                    }
                }
            }
        }
        if ok {
            count = count + 1;
        }
        i = i + 1;
    }
    count
}

/// The calendar day this module solves.
pub struct Day4 {}

impl Day4 {
    /// The day's number.
    pub fn get_day_number(&self) -> (r: usize)
        ensures
            r == 4,
    {
        4
    }
}

} // verus!
