use swapi::error::PipelineError;
use swapi::fetch::{Fetch, FetchEvent};
use swapi::models::{APIResponse, RawCharacter};

fn text(value: &str) -> Option<String> {
    Some(value.to_string())
}

fn record(name: &str) -> RawCharacter {
    RawCharacter {
        name: text(name),
        height: text("100"),
        gender: text("male"),
        birth_year: None,
        eye_color: None,
        hair_color: None,
        mass: None,
        skin_color: None,
        homeworld: None,
        films: vec![],
        species: vec![],
        starships: vec![],
        vehicles: vec![],
        url: None,
        created: None,
        edited: None,
    }
}

fn page(names: &[&str], next: Option<&str>, previous: Option<&str>) -> APIResponse {
    APIResponse {
        count: 6,
        next: next.map(|s| s.to_string()),
        previous: previous.map(|s| s.to_string()),
        results: names.iter().map(|n| record(n)).collect(),
    }
}

fn names(records: &[RawCharacter]) -> Vec<String> {
    records.iter().map(|r| r.name.clone().unwrap()).collect()
}

#[test]
fn a_fetch_starts_by_asking_for_its_address() {
    let fetch = Fetch::start("https://example.test/people".to_string());
    assert_eq!(fetch.pending(), Some("https://example.test/people"));
    assert_eq!(
        fetch,
        Fetch::Requesting { url: "https://example.test/people".to_string(), records: vec![] }
    );
    assert_eq!(fetch.outcome(), None);
}

#[test]
fn three_pages_are_collected_in_page_order() {
    let first = page(&["a", "b", "c"], Some("p2"), None);
    let second = page(&["d"], Some("p3"), Some("p1"));
    let third = page(&["e", "f"], None, Some("p2"));
    let total = first.results.len() + second.results.len() + third.results.len();

    let fetch = Fetch::start("p1".to_string());
    assert_eq!(fetch.pending(), Some("p1"));
    let fetch = fetch.advance(FetchEvent::Page(first));
    assert_eq!(fetch.pending(), Some("p2"));
    let fetch = fetch.advance(FetchEvent::Page(second));
    assert_eq!(fetch.pending(), Some("p3"));
    let fetch = fetch.advance(FetchEvent::Page(third));
    assert_eq!(fetch.pending(), None);

    let records = fetch.outcome().unwrap().unwrap();
    assert_eq!(records.len(), total);
    assert_eq!(records.len(), 6);
    assert_eq!(names(&records), vec!["a", "b", "c", "d", "e", "f"]);
}

#[test]
fn a_single_page_without_link_completes_the_fetch() {
    let fetch = Fetch::start("p1".to_string()).advance(FetchEvent::Page(page(&["a"], None, None)));
    assert_eq!(fetch, Fetch::Complete { records: vec![record("a")] });
    assert_eq!(fetch.outcome(), Some(Ok(vec![record("a")])));
}

#[test]
fn an_empty_page_adds_nothing() {
    let fetch = Fetch::start("p1".to_string())
        .advance(FetchEvent::Page(page(&["a"], Some("p2"), None)))
        .advance(FetchEvent::Page(page(&[], Some("p3"), None)))
        .advance(FetchEvent::Page(page(&["b"], None, None)));
    assert_eq!(fetch.outcome(), Some(Ok(vec![record("a"), record("b")])));
}

#[test]
fn the_link_of_the_page_is_followed_not_the_count() {
    let mut only = page(&["a"], None, None);
    only.count = 82;
    let fetch = Fetch::start("p1".to_string()).advance(FetchEvent::Page(only));
    assert_eq!(fetch.pending(), None);
    let mut linked = page(&[], Some("again"), None);
    linked.count = 0;
    let fetch = Fetch::start("p1".to_string()).advance(FetchEvent::Page(linked));
    assert_eq!(fetch.pending(), Some("again"));
}

#[test]
fn a_transport_failure_ends_the_fetch() {
    let fetch = Fetch::start("p1".to_string())
        .advance(FetchEvent::Page(page(&["a"], Some("p2"), None)))
        .advance(FetchEvent::TransportFailure);
    assert_eq!(fetch, Fetch::Failed { error: PipelineError::Transport });
    assert_eq!(fetch.pending(), None);
    assert_eq!(fetch.outcome(), Some(Err(PipelineError::Transport)));
}

#[test]
fn a_malformed_reply_ends_the_fetch() {
    let fetch = Fetch::start("p1".to_string()).advance(FetchEvent::MalformedReply);
    assert_eq!(fetch, Fetch::Failed { error: PipelineError::Shape });
    assert_eq!(fetch.outcome(), Some(Err(PipelineError::Shape)));
}

#[test]
fn a_failure_gives_up_what_had_come() {
    let fetch = Fetch::start("p1".to_string())
        .advance(FetchEvent::Page(page(&["a", "b"], Some("p2"), None)))
        .advance(FetchEvent::MalformedReply);
    assert_eq!(fetch.outcome(), Some(Err(PipelineError::Shape)));
}

#[test]
fn nothing_changes_a_failed_fetch() {
    let failed = Fetch::start("p1".to_string()).advance(FetchEvent::TransportFailure);
    let later = failed
        .advance(FetchEvent::Page(page(&["a"], None, None)))
        .advance(FetchEvent::MalformedReply);
    assert_eq!(later, Fetch::Failed { error: PipelineError::Transport });
}

#[test]
fn nothing_changes_a_complete_fetch() {
    let complete =
        Fetch::start("p1".to_string()).advance(FetchEvent::Page(page(&["a"], None, None)));
    let later = complete
        .advance(FetchEvent::Page(page(&["b"], Some("p9"), None)))
        .advance(FetchEvent::TransportFailure)
        .advance(FetchEvent::MalformedReply);
    assert_eq!(later, Fetch::Complete { records: vec![record("a")] });
}

#[test]
fn a_fetch_in_progress_has_no_outcome() {
    let fetch =
        Fetch::start("p1".to_string()).advance(FetchEvent::Page(page(&["a"], Some("p2"), None)));
    assert_eq!(fetch.pending(), Some("p2"));
    assert_eq!(fetch.outcome(), None);
}
