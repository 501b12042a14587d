use swapi::error::PipelineError;
use swapi::models::{OutputCharacter, RawCharacter};
use swapi::pipeline::group_characters;

fn text(value: &str) -> Option<String> {
    Some(value.to_string())
}

fn record(name: Option<&str>, height: Option<&str>, gender: Option<&str>) -> RawCharacter {
    RawCharacter {
        name: name.map(|s| s.to_string()),
        height: height.map(|s| s.to_string()),
        gender: gender.map(|s| s.to_string()),
        birth_year: None,
        eye_color: text("brown"),
        hair_color: None,
        mass: text("unknown"),
        skin_color: None,
        homeworld: None,
        films: vec![text("https://example.test/films/1/")],
        species: vec![],
        starships: vec![],
        vehicles: vec![None],
        url: None,
        created: None,
        edited: None,
    }
}

fn group(gender: &str, characters: Vec<RawCharacter>) -> OutputCharacter {
    OutputCharacter { gender: gender.to_string(), characters }
}

fn luke() -> RawCharacter {
    record(Some("Luke"), Some("172"), Some("male"))
}

fn leia() -> RawCharacter {
    record(Some("Leia"), Some("150"), Some("female"))
}

fn r2d2() -> RawCharacter {
    record(Some("R2-D2"), Some("96"), Some("n/a"))
}

fn zed() -> RawCharacter {
    record(Some("Zed"), Some("unknown"), Some("male"))
}

#[test]
fn four_records_make_three_groups() {
    let records = vec![luke(), leia(), r2d2(), zed()];
    let groups = group_characters(&records).unwrap();
    assert_eq!(
        groups,
        vec![
            group("female", vec![leia()]),
            group("male", vec![luke(), zed()]),
            group("n/a", vec![r2d2()]),
        ]
    );
}

#[test]
fn the_male_group_has_luke_before_zed() {
    let records = vec![zed(), luke(), leia(), r2d2()];
    let groups = group_characters(&records).unwrap();
    let male = groups.iter().find(|g| g.gender == "male").unwrap();
    assert_eq!(male.characters, vec![luke(), zed()]);
    let female = groups.iter().find(|g| g.gender == "female").unwrap();
    assert_eq!(female.characters, vec![leia()]);
    let other = groups.iter().find(|g| g.gender == "n/a").unwrap();
    assert_eq!(other.characters, vec![r2d2()]);
}

#[test]
fn groups_come_in_ascending_order_of_gender() {
    let records = vec![
        record(Some("a"), Some("1"), Some("none")),
        record(Some("b"), Some("1"), Some("male")),
        record(Some("c"), Some("1"), Some("hermaphrodite")),
        record(Some("d"), Some("1"), Some("female")),
        record(Some("e"), Some("1"), Some("n/a")),
        record(Some("f"), Some("1"), Some("Male")),
    ];
    let groups = group_characters(&records).unwrap();
    let genders: Vec<&str> = groups.iter().map(|g| g.gender.as_str()).collect();
    assert_eq!(genders, vec!["Male", "female", "hermaphrodite", "male", "n/a", "none"]);
}

#[test]
fn a_record_without_gender_is_in_no_group() {
    let ghost = record(Some("Ghost"), Some("180"), None);
    let records = vec![luke(), ghost, leia()];
    let groups = group_characters(&records).unwrap();
    assert_eq!(groups, vec![group("female", vec![leia()]), group("male", vec![luke()])]);
}

#[test]
fn groups_hold_each_gendered_record_once() {
    let records = vec![
        luke(),
        leia(),
        r2d2(),
        zed(),
        luke(),
        record(Some("Ghost"), None, None),
        record(Some("Mon"), None, Some("female")),
        record(None, Some("200"), Some("male")),
    ];
    let groups = group_characters(&records).unwrap();
    let held: Vec<&RawCharacter> = groups.iter().flat_map(|g| g.characters.iter()).collect();
    let gendered: Vec<&RawCharacter> = records.iter().filter(|r| r.gender.is_some()).collect();
    assert_eq!(held.len(), gendered.len());
    for r in &records {
        let came = gendered.iter().filter(|x| **x == r).count();
        let kept = held.iter().filter(|x| **x == r).count();
        assert_eq!(came, kept);
    }
    for g in &groups {
        for c in &g.characters {
            assert_eq!(c.gender.as_deref(), Some(g.gender.as_str()));
        }
    }
}

#[test]
fn within_a_group_numbers_ascend_then_names_ascend() {
    let records = vec![
        record(Some("Zed"), Some("unknown"), Some("male")),
        record(Some("Vader"), Some("202"), Some("male")),
        record(Some("Anakin"), Some("none"), Some("male")),
        record(Some("Luke"), Some("172"), Some("male")),
        record(Some("Leia"), Some("150"), Some("female")),
        record(Some("Yoda"), Some("66"), Some("male")),
        record(Some("Biggs"), None, Some("male")),
    ];
    let groups = group_characters(&records).unwrap();
    let male = &groups[1];
    assert_eq!(male.gender, "male");
    let names: Vec<&str> = male.characters.iter().map(|c| c.name.as_deref().unwrap()).collect();
    assert_eq!(names, vec!["Yoda", "Luke", "Vader", "Anakin", "Biggs", "Zed"]);
}

#[test]
fn height_none_is_alphabetic_and_172_is_numeric() {
    let records = vec![
        record(Some("Aaa"), Some("none"), Some("male")),
        record(Some("Zzz"), Some("172"), Some("male")),
    ];
    let groups = group_characters(&records).unwrap();
    assert_eq!(groups.len(), 1);
    let names: Vec<&str> =
        groups[0].characters.iter().map(|c| c.name.as_deref().unwrap()).collect();
    assert_eq!(names, vec!["Zzz", "Aaa"]);
}

#[test]
fn grouping_twice_gives_the_same_groups() {
    let records = vec![zed(), luke(), leia(), r2d2(), luke(), zed()];
    let first = group_characters(&records).unwrap();
    let second = group_characters(&records).unwrap();
    assert_eq!(first, second);
    assert_eq!(format!("{:?}", first), format!("{:?}", second));
}

#[test]
fn grouping_nothing_gives_no_group() {
    let none: Vec<RawCharacter> = vec![];
    assert_eq!(group_characters(&none), Ok(vec![]));
    let ungendered = vec![record(None, None, None)];
    assert_eq!(group_characters(&ungendered), Ok(vec![]));
}

#[test]
fn a_member_without_height_and_name_fails_the_grouping() {
    let records = vec![luke(), record(None, Some("unknown"), Some("male")), leia()];
    assert_eq!(group_characters(&records), Err(PipelineError::Data));
    let last = vec![luke(), leia(), record(None, None, Some("n/a"))];
    assert_eq!(group_characters(&last), Err(PipelineError::Data));
}

#[test]
fn a_keyless_record_without_gender_fails_nothing() {
    let records = vec![luke(), record(None, None, None), record(None, Some("x"), None)];
    assert_eq!(group_characters(&records), Ok(vec![group("male", vec![luke()])]));
}

#[test]
fn records_pass_through_unchanged() {
    let mut rich = luke();
    rich.films = vec![text("one"), None, text("three")];
    rich.species = vec![None];
    rich.edited = text("2014-12-20T21:17:56.891000Z");
    let records = vec![rich.clone()];
    let groups = group_characters(&records).unwrap();
    assert_eq!(groups[0].characters[0], rich);
}
