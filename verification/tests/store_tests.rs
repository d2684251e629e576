use site_tui::model::{PrimaryEmail, Quote, SiteData};
use site_tui::store::{data_url, snapshot, Store, MIN_REFRESH_INTERVAL_SECS};

fn data_with_quotes(n: usize, location: &str) -> SiteData {
    SiteData {
        adjectives: vec!["curious".to_string()],
        jobs: Vec::new(),
        projects: Vec::new(),
        quotes: (0..n)
            .map(|i| Quote { text: format!("quote {i}"), author: format!("author {i}") })
            .collect(),
        socials: Vec::new(),
        primary_email: PrimaryEmail { label: "me@example.com".to_string(), url: String::new() },
        location: location.to_string(),
    }
}

#[test]
fn new_store_serves_the_fallback() {
    let store = Store::new(data_with_quotes(3, "Waterloo"));
    let snap = snapshot(&store);
    assert_eq!(snap.quotes.len(), 3);
    assert_eq!(snap.location, "Waterloo");
}

#[test]
fn first_refresh_is_always_due() {
    let mut store = Store::new(data_with_quotes(1, "a"));
    assert!(store.refresh_if_stale(1_000));
}

#[test]
fn refresh_is_rate_limited() {
    let mut store = Store::new(data_with_quotes(1, "a"));
    assert!(store.refresh_if_stale(1_000));
    // In flight: refused.
    assert!(!store.refresh_if_stale(1_000 + MIN_REFRESH_INTERVAL_SECS));
    store.finish_refresh(None);
    // Finished, but inside the window: refused.
    assert!(!store.refresh_if_stale(1_000 + MIN_REFRESH_INTERVAL_SECS - 1));
    // Clock going backwards counts as no time elapsed.
    assert!(!store.refresh_if_stale(10));
    // Window over: allowed again.
    assert!(store.refresh_if_stale(1_000 + MIN_REFRESH_INTERVAL_SECS));
}

#[test]
fn only_one_pull_in_flight() {
    let mut store = Store::new(data_with_quotes(1, "a"));
    assert!(store.refresh_if_stale(500));
    assert!(!store.refresh_if_stale(500 + 10 * MIN_REFRESH_INTERVAL_SECS));
    store.finish_refresh(None);
    assert!(store.refresh_if_stale(500 + 10 * MIN_REFRESH_INTERVAL_SECS));
}

#[test]
fn init_counts_as_an_attempt() {
    let mut store = Store::new(data_with_quotes(1, "a"));
    store.begin_init(2_000);
    store.finish_init(None);
    assert!(!store.refresh_if_stale(2_030));
    assert!(store.refresh_if_stale(2_060));
}

#[test]
fn init_before_the_epoch_does_not_block_refresh() {
    let mut store = Store::new(data_with_quotes(1, "a"));
    store.begin_init(0);
    assert!(store.refresh_if_stale(5));
}

#[test]
fn successful_pull_replaces_failed_keeps() {
    let mut store = Store::new(data_with_quotes(1, "fallback"));
    store.begin_init(100);
    store.finish_init(Some(data_with_quotes(4, "fresh")));
    assert_eq!(snapshot(&store).location, "fresh");
    assert!(store.refresh_if_stale(200));
    store.finish_refresh(None);
    assert_eq!(snapshot(&store).location, "fresh");
    assert_eq!(snapshot(&store).quotes.len(), 4);
    assert!(store.refresh_if_stale(300));
    store.finish_refresh(Some(data_with_quotes(2, "newer")));
    assert_eq!(snapshot(&store).location, "newer");
}

#[test]
fn data_url_joins_with_one_slash() {
    assert_eq!(data_url("https://x.test/data", "jobs.json"), "https://x.test/data/jobs.json");
    assert_eq!(data_url("https://x.test/data///", "jobs.json"), "https://x.test/data/jobs.json");
    assert_eq!(data_url("", "a.json"), "/a.json");
    assert_eq!(data_url("///", "a.json"), "/a.json");
}
