use crates_io_cli::model::{human_line, ChangeKind, CrateVersion};
use crates_io_cli::search::{
    advance_search, sanitize, Crate, Meta, SearchAction, SearchKey, SearchResult,
};
use crates_io_cli::strutil::{repeat_char, str_lt, u64_to_dec};
use crates_io_cli::tui::{
    bar_width, draw_everything, draw_overflow, draw_progress, draw_tree_prefix, progress_text,
    Config, Progress, Rect, Span, TreeKey, TreeValue,
};

#[test]
fn numbers_render_in_decimal() {
    assert_eq!(u64_to_dec(0), "0");
    assert_eq!(u64_to_dec(7), "7");
    assert_eq!(u64_to_dec(1234567890), "1234567890");
    assert_eq!(u64_to_dec(u64::MAX), "18446744073709551615");
}

#[test]
fn string_order_is_lexicographic() {
    assert!(str_lt("0.9.0", "1.0.0"));
    assert!(!str_lt("1.0.0", "0.9.0"));
    assert!(!str_lt("1.0.0", "1.0.0"));
    assert!(str_lt("1.0", "1.0.0"));
    assert!(str_lt("", "a"));
}

#[test]
fn repeat_char_repeats() {
    assert_eq!(repeat_char('─', 4), "────");
    assert_eq!(repeat_char('x', 0), "");
}

#[test]
fn human_line_shows_name_version_kind() {
    let added = CrateVersion {
        name: "foo".to_owned(),
        version: "1.0.0".to_owned(),
        kind: ChangeKind::Added,
    };
    assert_eq!(human_line(&added), "foo 1.0.0 added");
    let yanked = CrateVersion {
        kind: ChangeKind::Yanked,
        ..added
    };
    assert_eq!(human_line(&yanked), "foo 1.0.0 yanked");
}

#[test]
fn sanitize_flattens_newlines() {
    assert_eq!(sanitize("a\nb\nc"), "a b c");
    assert_eq!(sanitize(""), "");
    assert_eq!(sanitize("no newline"), "no newline");
}

#[test]
fn display_line_joins_the_columns() {
    let hit = Crate {
        name: "serde".to_owned(),
        description: "hello\nworld".to_owned(),
        downloads: 12345,
        max_version: "1.0.0".to_owned(),
    };
    assert_eq!(hit.display_line(), "serde | hello world | 12345 | 1.0.0");
}

#[test]
fn display_line_cuts_long_descriptions_and_hides_blank_hits() {
    let long: String = std::iter::repeat('d').take(100).collect();
    let hit = Crate {
        name: "big".to_owned(),
        description: long.clone(),
        downloads: 1,
        max_version: "0.1.0".to_owned(),
    };
    let cut: String = long.chars().take(80).collect();
    let mut expected = String::from("big | ");
    expected.push_str(&cut);
    expected.push_str(" | 1 | 0.1.0");
    assert_eq!(hit.display_line(), expected);

    let blank = Crate {
        name: String::new(),
        description: "something".to_owned(),
        downloads: 9,
        max_version: "2.0.0".to_owned(),
    };
    assert_eq!(blank.display_line(), "");
}

#[test]
fn with_page_size_makes_an_empty_page() {
    let page = SearchResult::with_page_size(20);
    assert_eq!(page.crates.len(), 0);
    assert_eq!(page.meta.total, 0);
    assert_eq!(page.meta.page_size, Some(20));
}

#[test]
fn page_lines_pad_and_truncate() {
    let hit = Crate {
        name: "abc".to_owned(),
        description: "d".to_owned(),
        downloads: 2,
        max_version: "3".to_owned(),
    };
    let page = SearchResult {
        crates: vec![hit],
        meta: Meta {
            total: 1,
            page_size: Some(3),
        },
    };
    let lines = page.page_lines(7);
    assert_eq!(lines.len(), 3);
    assert_eq!(lines[0], "abc | d");
    assert_eq!(lines[1], "");
    assert_eq!(lines[2], "");
}

#[test]
fn search_keys_drive_the_term() {
    let mut term = String::from("ab");
    assert_eq!(
        advance_search(&mut term, SearchKey::Char('c')),
        SearchAction::Search
    );
    assert_eq!(term, "abc");
    assert_eq!(
        advance_search(&mut term, SearchKey::Backspace),
        SearchAction::Search
    );
    assert_eq!(term, "ab");
    assert_eq!(
        advance_search(&mut term, SearchKey::Esc),
        SearchAction::Quit
    );
    assert_eq!(term, "ab");
    assert_eq!(
        advance_search(&mut term, SearchKey::Other),
        SearchAction::Unsupported
    );
    assert_eq!(term, "ab");
    assert_eq!(
        advance_search(&mut term, SearchKey::Char('\n')),
        SearchAction::ShowDefault
    );
    assert_eq!(term, "");
    assert_eq!(
        advance_search(&mut term, SearchKey::Backspace),
        SearchAction::ShowDefault
    );
    assert_eq!(term, "");
}

#[test]
fn progress_text_shows_steps_and_units() {
    let p = Progress {
        step: 5,
        done_at: Some(10),
        unit: Some("items".to_owned()),
    };
    assert_eq!(progress_text(&Some(p), 0), "5 / 10 items");
    let bare = Progress {
        step: 3,
        done_at: None,
        unit: None,
    };
    assert_eq!(progress_text(&Some(bare), 0), "3");
    assert_eq!(progress_text(&None, 4), "────");
}

#[test]
fn bar_width_fills_the_whole_share() {
    assert_eq!(bar_width(10, 5, 10), 5);
    assert_eq!(bar_width(10, 20, 10), 10);
    assert_eq!(bar_width(7, 1, 3), 2);
    assert_eq!(bar_width(0, 1, 3), 0);
}

#[test]
fn tree_prefix_spans_are_indented_and_cut() {
    let entries = vec![
        (
            TreeKey { level: 1 },
            TreeValue {
                title: "work".to_owned(),
                progress: None,
            },
        ),
        (
            TreeKey { level: 3 },
            TreeValue {
                title: "aaaaaaaaaaaaaaaaaaaaaaaaa".to_owned(),
                progress: None,
            },
        ),
    ];
    let mut buf: Vec<Span> = Vec::new();
    let current = Rect {
        x: 1,
        y: 1,
        width: 40,
        height: 5,
    };
    let widest = draw_tree_prefix(&entries, &mut buf, current, 10);
    assert_eq!(buf.len(), 2);
    assert_eq!(buf[0].x, 1);
    assert_eq!(buf[0].y, 1);
    assert_eq!(buf[0].text, "‧ work");
    assert_eq!(buf[1].y, 2);
    // nine grapheme clusters survive, then the ellipsis
    assert_eq!(buf[1].text, "  ‧ aaaaa…");
    assert!(widest.is_some());
}

#[test]
fn progress_spans_follow_the_title_column() {
    let entries = vec![(
        TreeKey { level: 1 },
        TreeValue {
            title: "t".to_owned(),
            progress: Some(Progress {
                step: 2,
                done_at: Some(4),
                unit: None,
            }),
        },
    )];
    let mut buf: Vec<Span> = Vec::new();
    let current = Rect {
        x: 1,
        y: 1,
        width: 30,
        height: 5,
    };
    draw_progress(&entries, &mut buf, current, 8);
    assert_eq!(buf.len(), 1);
    assert_eq!(buf[0].x, 9);
    assert_eq!(buf[0].y, 1);
    assert_eq!(buf[0].text, "│ 2 / 4");
}

#[test]
fn overflow_line_counts_and_averages() {
    let half = |title: &str| {
        (
            TreeKey { level: 1 },
            TreeValue {
                title: title.to_owned(),
                progress: Some(Progress {
                    step: 1,
                    done_at: Some(2),
                    unit: None,
                }),
            },
        )
    };
    let entries = vec![half("a"), half("b")];
    let mut buf: Vec<Span> = Vec::new();
    let rect = Rect {
        x: 2,
        y: 9,
        width: 30,
        height: 1,
    };
    draw_overflow(&entries, 0, &mut buf, rect);
    assert_eq!(buf.len(), 1);
    assert_eq!(buf[0].x, 2);
    assert_eq!(buf[0].y, 9);
    assert_eq!(buf[0].text, "…and 2 more -- 50%");
}

#[test]
fn a_frame_composes_and_returns_the_entries() {
    let entries = vec![(
        TreeKey { level: 1 },
        TreeValue {
            title: "fetch".to_owned(),
            progress: None,
        },
    )];
    let config = Config {
        frames_per_second: 30,
    };
    assert_eq!(config.frames_per_second, 30);
    let mut buf: Vec<Span> = Vec::new();
    let window = Rect {
        x: 0,
        y: 0,
        width: 40,
        height: 10,
    };
    let back = draw_everything(entries.clone(), window, &mut buf);
    assert_eq!(back, entries);
    assert_eq!(buf[0].text, "Progress Tree");
    assert_eq!(buf.len(), 3);
}

#[test]
fn a_degenerate_window_draws_nothing() {
    let entries = vec![(
        TreeKey { level: 1 },
        TreeValue {
            title: "fetch".to_owned(),
            progress: None,
        },
    )];
    let mut buf: Vec<Span> = Vec::new();
    let window = Rect {
        x: 3,
        y: 4,
        width: 0,
        height: 0,
    };
    let back = draw_everything(entries.clone(), window, &mut buf);
    assert_eq!(back, entries);
    assert!(buf.is_empty());
}

#[test]
fn an_overflowing_frame_gets_a_summary_row() {
    let entry = |title: &str| {
        (
            TreeKey { level: 1 },
            TreeValue {
                title: title.to_owned(),
                progress: Some(Progress {
                    step: 1,
                    done_at: Some(2),
                    unit: None,
                }),
            },
        )
    };
    let entries = vec![entry("a"), entry("b"), entry("c"), entry("d")];
    let mut buf: Vec<Span> = Vec::new();
    // a 4-row window: inner height 2, one row given up to the summary
    let window = Rect {
        x: 0,
        y: 0,
        width: 30,
        height: 4,
    };
    let back = draw_everything(entries.clone(), window, &mut buf);
    assert_eq!(back, entries);
    // title + one tree row + one progress row + the overflow summary
    assert_eq!(buf.len(), 4);
    assert_eq!(buf.last().unwrap().text, "…and 3 more -- 50%");
    assert_eq!(buf.last().unwrap().y, 2);
}
