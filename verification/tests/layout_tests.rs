use site_tui::layout::{gap_between, progress_segments, tagline_pieces, BarSegment, TaglinePiece};
use site_tui::model::{AdjectivesDoc, PrimaryEmail, SiteData, Social, SocialsDoc};

fn render(segs: &[BarSegment]) -> String {
    let mut out = String::new();
    for seg in segs {
        match seg {
            BarSegment::Tick { filled: true } => out.push('T'),
            BarSegment::Tick { filled: false } => out.push('t'),
            BarSegment::Filled { width } => out.push_str(&"#".repeat(*width)),
            BarSegment::Empty { width } => out.push_str(&".".repeat(*width)),
        }
    }
    out
}

#[test]
fn bar_cells_follow_fill_and_ticks() {
    let segs = progress_segments(10, 4, &vec![2, 6]);
    assert_eq!(render(&segs), "##T#..t...");
    assert_eq!(segs.len(), 6);
}

#[test]
fn bar_runs_are_maximal() {
    let segs = progress_segments(8, 3, &vec![]);
    assert_eq!(segs.len(), 2);
    assert!(matches!(segs[0], BarSegment::Filled { width: 3 }));
    assert!(matches!(segs[1], BarSegment::Empty { width: 5 }));
}

#[test]
fn bar_edges() {
    assert!(progress_segments(0, 5, &vec![0]).is_empty());
    assert_eq!(render(&progress_segments(5, 0, &vec![0, 4])), "t...t");
    assert_eq!(render(&progress_segments(5, 99, &vec![1, 1, 9])), "#T###");
    assert_eq!(render(&progress_segments(4, 4, &vec![])), "####");
}

#[test]
fn gap_counts_characters() {
    assert_eq!(gap_between(20, "me@x.io", "⦿ Town"), 7);
    assert_eq!(gap_between(5, "abc", "def"), 0);
    assert_eq!(gap_between(6, "abc", "def"), 0);
    assert_eq!(gap_between(7, "abc", "def"), 1);
}

#[test]
fn tagline_separates_adjectives() {
    let adjs = vec!["a".to_string(), "b".to_string(), "c".to_string()];
    let pieces = tagline_pieces(&adjs);
    assert_eq!(pieces.len(), 7);
    assert!(matches!(pieces[0], TaglinePiece::Open));
    assert!(matches!(&pieces[1], TaglinePiece::Adjective(s) if s == "a"));
    assert!(matches!(pieces[2], TaglinePiece::Separator));
    assert!(matches!(&pieces[5], TaglinePiece::Adjective(s) if s == "c"));
    assert!(matches!(pieces[6], TaglinePiece::Close));
    let empty = tagline_pieces(&Vec::new());
    assert_eq!(empty.len(), 2);
}

#[test]
fn documents_assemble_into_site_data() {
    let data = SiteData::from_documents(
        AdjectivesDoc { location: "Here".to_string(), adjectives: vec!["x".to_string()] },
        Vec::new(),
        Vec::new(),
        Vec::new(),
        SocialsDoc {
            socials: vec![Social { label: "gh".to_string(), url: "u".to_string() }],
            primary_email: PrimaryEmail { label: "e".to_string(), url: "m".to_string() },
        },
    );
    assert_eq!(data.location, "Here");
    assert_eq!(data.adjectives, vec!["x".to_string()]);
    assert_eq!(data.socials.len(), 1);
    assert_eq!(data.primary_email.label, "e");
}
