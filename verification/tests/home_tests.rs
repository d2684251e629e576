use rand::SeedableRng;
use site_tui::home::{quote_lines, HomeSection, Key};
use site_tui::model::{PrimaryEmail, Quote, SiteData};
use site_tui::store::{snapshot, Store};

fn store_with_quotes(n: usize) -> Store {
    Store::new(SiteData {
        adjectives: Vec::new(),
        jobs: Vec::new(),
        projects: Vec::new(),
        quotes: (0..n)
            .map(|i| Quote { text: format!("q{i}"), author: format!("a{i}") })
            .collect(),
        socials: Vec::new(),
        primary_email: PrimaryEmail { label: String::new(), url: String::new() },
        location: String::new(),
    })
}

fn shown(section: &HomeSection, n: usize) -> Option<usize> {
    section.quote_index(n)
}

#[test]
fn every_quote_is_shown_once_per_cycle() {
    let store = store_with_quotes(7);
    let mut section = HomeSection::new(&store);
    let mut seen = Vec::new();
    for _ in 0..7 {
        seen.push(shown(&section, 7).unwrap());
        section.handle_key(Key::Right);
    }
    seen.sort();
    assert_eq!(seen, (0..7).collect::<Vec<_>>());
    assert_eq!(section.position(), (1, 7));
}

#[test]
fn next_and_previous_wrap_around() {
    let store = store_with_quotes(3);
    let mut section = HomeSection::new(&store);
    assert_eq!(section.position(), (1, 3));
    section.handle_key(Key::Left);
    assert_eq!(section.position(), (3, 3));
    section.handle_key(Key::Char('n'));
    assert_eq!(section.position(), (1, 3));
    section.handle_key(Key::Char('l'));
    assert_eq!(section.position(), (2, 3));
    section.handle_key(Key::Char('h'));
    section.handle_key(Key::Char('p'));
    assert_eq!(section.position(), (3, 3));
}

#[test]
fn other_keys_do_nothing() {
    let store = store_with_quotes(4);
    let mut section = HomeSection::new(&store);
    section.handle_key(Key::Right);
    let before = section.quote_index(4);
    for key in [Key::Up, Key::Down, Key::Enter, Key::Esc, Key::Tab, Key::Char('x')] {
        section.handle_key(key);
    }
    assert_eq!(section.position(), (2, 4));
    assert_eq!(section.quote_index(4), before);
}

#[test]
fn no_quotes_no_movement() {
    let store = store_with_quotes(0);
    let mut section = HomeSection::new(&store);
    section.handle_key(Key::Right);
    section.handle_key(Key::Left);
    assert_eq!(section.position(), (1, 1));
    assert_eq!(section.quote_index(0), None);
}

#[test]
fn update_resyncs_when_the_count_changes() {
    let small = store_with_quotes(2);
    let big = store_with_quotes(5);
    let mut section = HomeSection::new(&small);
    section.handle_key(Key::Right);
    section.update(&small);
    assert_eq!(section.position(), (2, 2));
    section.update(&big);
    assert_eq!(section.position(), (1, 5));
    assert_eq!(snapshot(&big).quotes.len(), 5);
}

#[test]
fn quote_index_is_reduced_modulo_the_quote_count() {
    let store = store_with_quotes(5);
    let section = HomeSection::new(&store);
    for n in 1..8 {
        assert!(section.quote_index(n).unwrap() < n);
    }
}

#[test]
fn label_is_home() {
    let store = store_with_quotes(1);
    assert_eq!(HomeSection::new(&store).label(), "Home");
}

#[test]
fn quote_is_quoted_and_wrapped() {
    assert_eq!(quote_lines("stay hungry stay foolish", 16), vec!["\"stay hungry", "stay foolish\""]);
    assert_eq!(quote_lines("hi", 2), vec!["\"hi\""]);
    assert_eq!(quote_lines("hi", 0), vec!["\"hi\""]);
    assert_eq!(quote_lines("abcdefgh", 6), vec!["\"ab", "cde", "fgh", "\""]);
}

#[test]
fn without_a_generator_quotes_keep_their_order() {
    let mut section = HomeSection::with_generator(4, None);
    let mut seen = Vec::new();
    for _ in 0..4 {
        seen.push(section.quote_index(4).unwrap());
        section.handle_key(Key::Right);
    }
    assert_eq!(seen, vec![0, 1, 2, 3]);
}

#[test]
fn with_a_generator_quotes_are_a_permutation() {
    let rng = rand::rngs::StdRng::seed_from_u64(7);
    let mut section = HomeSection::with_generator(9, Some(rng));
    let mut seen = Vec::new();
    for _ in 0..9 {
        seen.push(section.quote_index(9).unwrap());
        section.handle_key(Key::Char('n'));
    }
    seen.sort();
    assert_eq!(seen, (0..9).collect::<Vec<_>>());
    assert_eq!(section.position(), (1, 9));
}
