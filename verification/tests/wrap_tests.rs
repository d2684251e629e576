use site_tui::wrap::{is_whitespace, word_wrap};

fn wrap(text: &str, width: usize) -> Vec<String> {
    word_wrap(text, width)
}

#[test]
fn wraps_greedily_at_the_width() {
    assert_eq!(wrap("hello world foo", 11), vec!["hello world", "foo"]);
    assert_eq!(wrap("a b c d", 3), vec!["a b", "c d"]);
    assert_eq!(wrap("one two three", 7), vec!["one two", "three"]);
}

#[test]
fn line_may_fill_the_width_exactly() {
    assert_eq!(wrap("abc def", 7), vec!["abc def"]);
    assert_eq!(wrap("abc def", 6), vec!["abc", "def"]);
}

#[test]
fn zero_width_keeps_the_text_whole() {
    assert_eq!(wrap("  keep   this as is ", 0), vec!["  keep   this as is "]);
    assert_eq!(wrap("", 0), vec![""]);
}

#[test]
fn empty_and_blank_text_give_no_lines() {
    assert!(wrap("", 10).is_empty());
    assert!(wrap("   \t\n  ", 10).is_empty());
}

#[test]
fn whitespace_runs_collapse_to_one_space() {
    assert_eq!(wrap("  a \t\n b   c  ", 80), vec!["a b c"]);
}

#[test]
fn long_word_is_cut_at_the_width() {
    assert_eq!(
        wrap("tiny incomprehensibilities x", 5),
        vec!["tiny", "incom", "prehe", "nsibi", "litie", "s x"]
    );
    assert_eq!(wrap("abcdef", 3), vec!["abc", "def"]);
    assert_eq!(wrap("ab cdefgh i", 4), vec!["ab", "cdef", "gh i"]);
    assert_eq!(wrap("abcdefg", 1), vec!["a", "b", "c", "d", "e", "f", "g"]);
}

#[test]
fn width_counts_characters_not_bytes() {
    // "héllo" is five characters but six bytes.
    assert_eq!(wrap("héllo wörld", 11), vec!["héllo wörld"]);
    assert_eq!(wrap("héllo wörld", 10), vec!["héllo", "wörld"]);
}

#[test]
fn lines_fit_and_keep_every_character() {
    let text = "The quick brown fox jumps over the lazy dog and keeps running far away";
    for width in 1..30 {
        let lines = wrap(text, width);
        let rejoined: String = lines.iter().flat_map(|l| l.split(' ')).collect();
        let original: String = text.split_whitespace().collect();
        assert_eq!(rejoined, original);
        for line in &lines {
            assert!(line.chars().count() <= width);
            assert!(!line.is_empty());
            assert!(!line.starts_with(' ') && !line.ends_with(' ') && !line.contains("  "));
        }
        for pair in lines.windows(2) {
            let next_first = pair[1].split(' ').next().unwrap();
            assert!(pair[0].chars().count() + 1 + next_first.chars().count() > width);
        }
    }
}

#[test]
fn whitespace_matches_std() {
    for v in 0u32..=0x10FFFF {
        if let Some(c) = char::from_u32(v) {
            assert_eq!(is_whitespace(c), c.is_whitespace(), "char {:#x}", v);
        }
    }
}
