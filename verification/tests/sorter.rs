use swapi::error::PipelineError;
use swapi::models::RawCharacter;
use swapi::sorter::{precedes, sort_characters, stable_sort};

fn text(value: &str) -> Option<String> {
    Some(value.to_string())
}

fn record(name: Option<&str>, height: Option<&str>, tag: &str) -> RawCharacter {
    RawCharacter {
        name: name.map(|s| s.to_string()),
        height: height.map(|s| s.to_string()),
        gender: text("male"),
        birth_year: None,
        eye_color: None,
        hair_color: None,
        mass: None,
        skin_color: None,
        homeworld: None,
        films: vec![],
        species: vec![],
        starships: vec![],
        vehicles: vec![],
        url: text(tag),
        created: None,
        edited: None,
    }
}

fn tags(records: &[RawCharacter]) -> Vec<String> {
    records.iter().map(|r| r.url.clone().unwrap()).collect()
}

fn strings(values: &[&str]) -> Vec<String> {
    values.iter().map(|s| s.to_string()).collect()
}

#[test]
fn numbers_ascend_then_names_ascend() {
    let all = vec![
        record(Some("Zed"), Some("unknown"), "a"),
        record(Some("Luke"), Some("172"), "b"),
        record(Some("Anakin"), Some("n/a"), "c"),
        record(Some("Yoda"), Some("66"), "d"),
        record(Some("Vader"), Some("202"), "e"),
        record(Some("Mon"), None, "f"),
    ];
    let sorted = sort_characters(&all).unwrap();
    assert_eq!(tags(&sorted), strings(&["d", "b", "e", "c", "f", "a"]));
}

#[test]
fn numbers_are_ordered_as_numbers_not_as_texts() {
    let all = vec![
        record(Some("a"), Some("96"), "96"),
        record(Some("b"), Some("172"), "172"),
        record(Some("c"), Some("1000"), "1000"),
        record(Some("d"), Some("-5"), "-5"),
        record(Some("e"), Some("+7"), "+7"),
    ];
    let sorted = sort_characters(&all).unwrap();
    assert_eq!(tags(&sorted), strings(&["-5", "+7", "96", "172", "1000"]));
}

#[test]
fn equal_heights_keep_their_order() {
    let all = vec![
        record(Some("z"), Some("180"), "first"),
        record(Some("a"), Some("170"), "low"),
        record(Some("m"), Some("180"), "second"),
        record(Some("b"), Some("0180"), "third"),
        record(Some("c"), Some("+180"), "fourth"),
    ];
    let sorted = sort_characters(&all).unwrap();
    assert_eq!(tags(&sorted), strings(&["low", "first", "second", "third", "fourth"]));
}

#[test]
fn equal_names_keep_their_order() {
    let all = vec![
        record(Some("Sam"), Some("unknown"), "first"),
        record(Some("Al"), None, "al"),
        record(Some("Sam"), None, "second"),
        record(Some("Sam"), Some(""), "third"),
    ];
    let sorted = sort_characters(&all).unwrap();
    assert_eq!(tags(&sorted), strings(&["al", "first", "second", "third"]));
}

#[test]
fn the_runs_do_not_interleave() {
    let all = vec![
        record(Some("Aaa"), Some("none"), "n1"),
        record(Some("Zzz"), Some("1"), "h1"),
        record(Some("Bbb"), None, "n2"),
        record(Some("Aaa"), Some("999"), "h2"),
    ];
    let sorted = sort_characters(&all).unwrap();
    assert_eq!(tags(&sorted), strings(&["h1", "h2", "n1", "n2"]));
}

#[test]
fn a_name_is_not_needed_in_the_numeric_run() {
    let all = vec![
        record(Some("Luke"), Some("172"), "named"),
        record(None, Some("96"), "nameless"),
    ];
    let sorted = sort_characters(&all).unwrap();
    assert_eq!(tags(&sorted), strings(&["nameless", "named"]));
}

#[test]
fn neither_height_nor_name_is_a_data_error() {
    let all = vec![
        record(Some("Luke"), Some("172"), "a"),
        record(None, Some("unknown"), "b"),
        record(Some("Zed"), None, "c"),
    ];
    assert_eq!(sort_characters(&all), Err(PipelineError::Data));
    let absent = vec![record(None, None, "a")];
    assert_eq!(sort_characters(&absent), Err(PipelineError::Data));
}

#[test]
fn sorting_nothing_gives_nothing() {
    let none: Vec<RawCharacter> = vec![];
    assert_eq!(sort_characters(&none), Ok(vec![]));
    assert_eq!(stable_sort(&none), vec![]);
}

#[test]
fn sorting_keeps_every_record_whole() {
    let all = vec![
        record(Some("Zed"), Some("unknown"), "a"),
        record(Some("Luke"), Some("172"), "b"),
        record(Some("Luke"), Some("172"), "b"),
        record(Some("Yoda"), Some("66"), "d"),
    ];
    let sorted = sort_characters(&all).unwrap();
    assert_eq!(sorted.len(), all.len());
    for r in &all {
        let before = all.iter().filter(|x| *x == r).count();
        let after = sorted.iter().filter(|x| *x == r).count();
        assert_eq!(before, after);
    }
}

#[test]
fn sorting_what_is_sorted_changes_nothing() {
    let all = vec![
        record(Some("Zed"), Some("unknown"), "a"),
        record(Some("Luke"), Some("172"), "b"),
        record(Some("Ann"), Some("172"), "c"),
        record(Some("Yoda"), Some("66"), "d"),
        record(Some("Ann"), None, "e"),
    ];
    let once = sort_characters(&all).unwrap();
    let twice = sort_characters(&once).unwrap();
    assert_eq!(once, twice);
}

#[test]
fn sorting_agrees_with_a_stable_sort_by_key() {
    let heights = ["5", "3", "x", "5", "", "12", "3", "y", "-1", "12", "x"];
    let names = ["k", "j", "i", "h", "g", "f", "e", "d", "c", "b", "a"];
    let all: Vec<RawCharacter> = heights
        .iter()
        .zip(names.iter())
        .enumerate()
        .map(|(i, (h, n))| record(Some(n), Some(h), &format!("{}", i)))
        .collect();
    let mut expected = all.clone();
    expected.sort_by_key(|r| {
        let h = r.height.as_ref().unwrap().parse::<i32>().ok();
        (h.is_none(), h, if h.is_none() { r.name.clone() } else { None })
    });
    assert_eq!(sort_characters(&all).unwrap(), expected);
    assert_eq!(stable_sort(&all), expected);
}

#[test]
fn the_plain_sort_puts_nameless_records_first_in_their_run() {
    let all = vec![
        record(Some("Al"), None, "al"),
        record(None, None, "nameless"),
        record(Some("Bo"), Some("1"), "bo"),
    ];
    assert_eq!(tags(&stable_sort(&all)), strings(&["bo", "nameless", "al"]));
}

#[test]
fn a_number_stands_before_no_number() {
    let tall = record(Some("Zed"), Some("999"), "t");
    let unknown = record(Some("Al"), Some("unknown"), "u");
    assert!(precedes(&tall, &unknown));
    assert!(!precedes(&unknown, &tall));
}

#[test]
fn numbers_compare_by_value_and_names_by_text() {
    let small = record(Some("b"), Some("96"), "s");
    let large = record(Some("a"), Some("172"), "l");
    assert!(precedes(&small, &large));
    assert!(!precedes(&large, &small));
    assert!(precedes(&small, &small));
    let al = record(Some("Al"), None, "al");
    let bo = record(Some("Bo"), Some("n/a"), "bo");
    assert!(precedes(&al, &bo));
    assert!(!precedes(&bo, &al));
    assert!(precedes(&al, &al));
}
