use aoc_2020_rust::day4::get_passport;
use aoc_2020_rust::day4::input_to_documents;
use aoc_2020_rust::day4::task;
use aoc_2020_rust::day4::Document;
use aoc_2020_rust::day4::DocumentField;
use aoc_2020_rust::day4::FieldRule;

const TESTINPUT1: &str = "ecl:gry pid:860033327 eyr:2020 hcl:#fffffd
byr:1937 iyr:2017 cid:147 hgt:183cm

iyr:2013 ecl:amb cid:350 eyr:2023 pid:028048884
hcl:#cfa07d byr:1929

hcl:#ae17e1 iyr:2013
eyr:2024
ecl:brn pid:760753108 byr:1931
hgt:179cm

hcl:#cfa07d eyr:2025 pid:166559648
iyr:2011 ecl:brn hgt:59in";

const TESTINPUT2: &str = "eyr:1972 cid:100
hcl:#18171d ecl:amb hgt:170 pid:186cm iyr:2018 byr:1926

iyr:2019
hcl:#602927 eyr:1967 hgt:170cm
ecl:grn pid:012533040 byr:1946

hcl:dab227 iyr:2012
ecl:brn hgt:182cm pid:021572410 eyr:2020 byr:1992 cid:277

hgt:59cm ecl:zzz
eyr:2038 hcl:74454a iyr:2023
pid:3556412378 byr:2007";

const TESTINPUT3: &str = "pid:087499704 hgt:74in ecl:grn iyr:2012 eyr:2030 byr:1980
hcl:#623a2f

eyr:2029 ecl:blu cid:129 byr:1989
iyr:2014 pid:896056539 hcl:#a97842 hgt:165cm

hcl:#888785
hgt:164cm byr:2001 iyr:2015 cid:88
pid:545766238 ecl:hzl
eyr:2022

iyr:2010 hgt:158cm hcl:#b6652a ecl:blu byr:1944 eyr:2021 pid:093154719";

#[test]
fn test_case_1() {
    let input: Vec<Document> = input_to_documents(TESTINPUT1);
    let count = input
        .iter()
        .filter(|d| d.is_passport(&get_passport(), false))
        .count();
    assert_eq!(count, 2);
}

#[test]
fn test_case_2() {
    let input: Vec<Document> = input_to_documents(TESTINPUT2);
    let count = input
        .iter()
        .filter(|d| d.is_passport(&get_passport(), true))
        .count();
    assert_eq!(count, 0);
}

#[test]
fn test_case_3() {
    let input: Vec<Document> = input_to_documents(TESTINPUT3);
    let count = input
        .iter()
        .filter(|d| d.is_passport(&get_passport(), true))
        .count();
    assert_eq!(count, 4);
}

#[test]
fn test_task_counts_passports() {
    assert_eq!(task(TESTINPUT1, false), 2);
    assert_eq!(task(TESTINPUT2, true), 0);
    assert_eq!(task(TESTINPUT3, true), 4);
}

#[test]
fn test_field_rules() {
    let byr = DocumentField {
        id: "byr".to_string(),
        rule: FieldRule::BirthYear,
    };
    assert!(byr.is_valid("byr:2002", true));
    assert!(!byr.is_valid("byr:2003", true));
    assert!(byr.is_valid("byr:2003", false));
    let hgt = DocumentField {
        id: "hgt".to_string(),
        rule: FieldRule::Height,
    };
    assert!(hgt.is_valid("hgt:60in", true));
    assert!(hgt.is_valid("hgt:190cm", true));
    assert!(!hgt.is_valid("hgt:190in", true));
    assert!(!hgt.is_valid("hgt:190", true));
    let hcl = DocumentField {
        id: "hcl".to_string(),
        rule: FieldRule::HairColour,
    };
    assert!(hcl.is_valid("hcl:#123abc", true));
    assert!(!hcl.is_valid("hcl:#123abz", true));
    assert!(!hcl.is_valid("hcl:123abc", true));
    let ecl = DocumentField {
        id: "ecl".to_string(),
        rule: FieldRule::EyeColour,
    };
    assert!(ecl.is_valid("ecl:brn", true));
    assert!(!ecl.is_valid("ecl:wat", true));
    let pid = DocumentField {
        id: "pid".to_string(),
        rule: FieldRule::PassportId,
    };
    assert!(pid.is_valid("pid:000000001", true));
    assert!(!pid.is_valid("pid:0123456789", true));
}
