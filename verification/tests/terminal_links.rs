use dux::terminal_links::{
    chars_start_with, logical_lines, ranges, ranges_for_line, row_chars, spans_for_chars,
    trim_trailing_punctuation, unmatched_closing_delimiter, url_at_grid_pos, url_for_cell,
    PositionedChar, SnapshotCell, TermGridPos, TerminalLinkRange, TerminalLinkSpan,
    TerminalSnapshot,
};
use unicode_width::{UnicodeWidthChar, UnicodeWidthStr};

fn snapshot(rows: &[&str], wrapped_rows: &[bool]) -> TerminalSnapshot {
    let cols = rows.iter().map(|row| row.width()).max().unwrap_or_default();
    let cells = rows
        .iter()
        .enumerate()
        .flat_map(|(row, text)| {
            let mut col = 0u16;
            text.chars().map(move |ch| {
                let cell = SnapshotCell {
                    row: u16::try_from(row).unwrap(),
                    col,
                    symbol: ch.to_string(),
                };
                col = col.saturating_add(
                    u16::try_from(UnicodeWidthChar::width(ch).unwrap_or(0)).unwrap_or(0),
                );
                cell
            })
        })
        .collect();
    TerminalSnapshot {
        rows: u16::try_from(rows.len()).unwrap(),
        cols: u16::try_from(cols).unwrap(),
        cells,
        wrapped_rows: wrapped_rows.to_vec(),
    }
}

fn chars(text: &str) -> Vec<char> {
    text.chars().collect()
}

#[test]
fn detects_url_across_soft_wrapped_rows() {
    let snapshot = snapshot(&["See https://example.", "com/path now"], &[true, false]);

    let ranges = ranges(&snapshot);

    assert_eq!(ranges.len(), 1);
    assert_eq!(ranges[0].url, "https://example.com/path");
    assert_eq!(
        url_at_grid_pos(&snapshot, TermGridPos { row: 1, col: 2 }).as_deref(),
        Some("https://example.com/path")
    );
    let continuation = snapshot
        .cells
        .iter()
        .find(|cell| cell.row == 1 && cell.col == 0)
        .unwrap();
    assert_eq!(
        url_for_cell(continuation, &ranges),
        Some("https://example.com/path")
    );
}

#[test]
fn preserves_balanced_url_delimiters_and_trims_sentence_delimiter() {
    let snapshot = snapshot(
        &["See (https://en.wikipedia.org/wiki/Function_(mathematics))."],
        &[false],
    );

    let ranges = ranges(&snapshot);

    assert_eq!(ranges.len(), 1);
    assert_eq!(
        ranges[0].url,
        "https://en.wikipedia.org/wiki/Function_(mathematics)"
    );
}

#[test]
fn combining_character_before_url_does_not_shift_hit_testing() {
    let mut snapshot = snapshot(&["  https://example.com"], &[false]);
    snapshot.cells[0].symbol = "e\u{301}".to_string();

    assert_eq!(
        url_at_grid_pos(&snapshot, TermGridPos { row: 0, col: 2 }).as_deref(),
        Some("https://example.com")
    );
}

#[test]
fn link_spans_cover_both_wrapped_rows() {
    let snapshot = snapshot(&["See https://example.", "com/path now"], &[true, false]);
    let ranges = ranges(&snapshot);
    assert_eq!(
        ranges[0].spans,
        vec![
            TerminalLinkSpan { row: 0, start_col: 4, end_col: 20 },
            TerminalLinkSpan { row: 1, start_col: 0, end_col: 8 },
        ]
    );
    assert!(ranges[0].contains(TermGridPos { row: 0, col: 4 }));
    assert!(ranges[0].contains(TermGridPos { row: 1, col: 7 }));
    assert!(!ranges[0].contains(TermGridPos { row: 0, col: 3 }));
    assert!(!ranges[0].contains(TermGridPos { row: 1, col: 8 }));
}

#[test]
fn unwrapped_rows_make_separate_lines() {
    let snapshot = snapshot(&["ab", "cd"], &[false, false]);
    let lines = logical_lines(&snapshot);
    assert_eq!(lines.len(), 2);
    assert_eq!(lines[0].iter().map(|c| c.ch).collect::<String>(), "ab");
    let wrapped = snapshot_with(&["ab", "cd"], &[true, true]);
    let lines = logical_lines(&wrapped);
    assert_eq!(lines.len(), 1);
    assert_eq!(lines[0].iter().map(|c| c.ch).collect::<String>(), "abcd");
}

fn snapshot_with(rows: &[&str], wrapped: &[bool]) -> TerminalSnapshot {
    snapshot(rows, wrapped)
}

#[test]
fn url_split_by_hard_line_end_is_not_joined() {
    let snapshot = snapshot(&["See https://example.", "com/path now"], &[false, false]);
    let ranges = ranges(&snapshot);
    assert_eq!(ranges.len(), 1);
    assert_eq!(ranges[0].url, "https://example");
}

#[test]
fn row_chars_fills_gaps_and_orders_cells_by_column() {
    let snapshot = TerminalSnapshot {
        rows: 1,
        cols: 6,
        cells: vec![
            SnapshotCell { row: 0, col: 4, symbol: "z".to_string() },
            SnapshotCell { row: 0, col: 1, symbol: "a".to_string() },
            SnapshotCell { row: 1, col: 0, symbol: "x".to_string() },
        ],
        wrapped_rows: vec![],
    };
    let row = row_chars(&snapshot, 0);
    let text: String = row.iter().map(|c| c.ch).collect();
    assert_eq!(text, " a  z");
    assert_eq!(row.iter().map(|c| c.col).collect::<Vec<_>>(), vec![0, 1, 2, 3, 4]);
}

#[test]
fn wide_characters_advance_two_columns() {
    let snapshot = TerminalSnapshot {
        rows: 1,
        cols: 3,
        cells: vec![SnapshotCell { row: 0, col: 0, symbol: "漢a".to_string() }],
        wrapped_rows: vec![],
    };
    let row = row_chars(&snapshot, 0);
    assert_eq!(
        row,
        vec![
            PositionedChar { ch: '漢', row: 0, col: 0, width: 2 },
            PositionedChar { ch: 'a', row: 0, col: 2, width: 1 },
        ]
    );
}

#[test]
fn combining_mark_is_drawn_over_previous_column() {
    let snapshot = TerminalSnapshot {
        rows: 1,
        cols: 1,
        cells: vec![SnapshotCell { row: 0, col: 3, symbol: "e\u{301}".to_string() }],
        wrapped_rows: vec![],
    };
    let row = row_chars(&snapshot, 0);
    assert_eq!(row.len(), 5);
    assert_eq!(row[3], PositionedChar { ch: 'e', row: 0, col: 3, width: 1 });
    assert_eq!(row[4], PositionedChar { ch: '\u{301}', row: 0, col: 3, width: 0 });
}

#[test]
fn url_for_cell_counts_the_width_of_a_wide_cell() {
    let range = TerminalLinkRange {
        url: "https://x.y".to_string(),
        spans: vec![TerminalLinkSpan { row: 0, start_col: 5, end_col: 9 }],
    };
    let ranges = vec![range];
    let wide = SnapshotCell { row: 0, col: 4, symbol: "漢".to_string() };
    assert_eq!(url_for_cell(&wide, &ranges), Some("https://x.y"));
    let narrow = SnapshotCell { row: 0, col: 4, symbol: "a".to_string() };
    assert_eq!(url_for_cell(&narrow, &ranges), None);
    let empty = SnapshotCell { row: 0, col: 4, symbol: String::new() };
    assert_eq!(url_for_cell(&empty, &ranges), None);
    let other_row = SnapshotCell { row: 1, col: 6, symbol: "a".to_string() };
    assert_eq!(url_for_cell(&other_row, &ranges), None);
}

#[test]
fn url_at_grid_pos_misses_outside_links() {
    let snapshot = snapshot(&["go http://a.b now"], &[false]);
    assert_eq!(url_at_grid_pos(&snapshot, TermGridPos { row: 0, col: 2 }), None);
    assert_eq!(
        url_at_grid_pos(&snapshot, TermGridPos { row: 0, col: 3 }).as_deref(),
        Some("http://a.b")
    );
    assert_eq!(
        url_at_grid_pos(&snapshot, TermGridPos { row: 0, col: 12 }).as_deref(),
        Some("http://a.b")
    );
    assert_eq!(url_at_grid_pos(&snapshot, TermGridPos { row: 0, col: 13 }), None);
}

#[test]
fn links_end_at_unicode_whitespace_and_control_characters() {
    let line: Vec<PositionedChar> = "https://a.b\u{3000}c https://c.d\u{7}e"
        .chars()
        .enumerate()
        .map(|(i, ch)| PositionedChar { ch, row: 0, col: i as u16, width: 1 })
        .collect();
    let found = ranges_for_line(&line);
    let urls: Vec<&str> = found.iter().map(|r| r.url.as_str()).collect();
    assert_eq!(urls, vec!["https://a.b", "https://c.d"]);
}

#[test]
fn nested_scheme_gives_a_second_link() {
    let line: Vec<PositionedChar> = "https://a.b/?u=http://c.d"
        .chars()
        .enumerate()
        .map(|(i, ch)| PositionedChar { ch, row: 0, col: i as u16, width: 1 })
        .collect();
    let found = ranges_for_line(&line);
    let urls: Vec<&str> = found.iter().map(|r| r.url.as_str()).collect();
    assert_eq!(urls, vec!["https://a.b/?u=http://c.d", "http://c.d"]);
}

#[test]
fn bare_scheme_is_a_link_but_trimmed_punctuation_is_not() {
    let line: Vec<PositionedChar> = "http:// and https:"
        .chars()
        .enumerate()
        .map(|(i, ch)| PositionedChar { ch, row: 0, col: i as u16, width: 1 })
        .collect();
    let found = ranges_for_line(&line);
    assert_eq!(found.len(), 1);
    assert_eq!(found[0].url, "http://");
}

#[test]
fn trims_sentence_punctuation_and_unmatched_brackets() {
    let text = chars("x https://a.b/c).\"'");
    let end = trim_trailing_punctuation(&text, 2, text.len());
    assert_eq!(end, 15);
    let again = trim_trailing_punctuation(&text, 2, end);
    assert_eq!(again, end);
    let kept = chars("https://a.b/[x]{y}");
    assert_eq!(trim_trailing_punctuation(&kept, 0, kept.len()), kept.len());
    assert_eq!(trim_trailing_punctuation(&kept, 5, 3), 3);
    assert_eq!(trim_trailing_punctuation(&kept, 50, 40), 40);
}

#[test]
fn unmatched_closing_delimiter_looks_at_every_prefix() {
    let text = chars("a)(b");
    assert!(unmatched_closing_delimiter(&text, 0, 4, '(', ')'));
    assert!(!unmatched_closing_delimiter(&text, 2, 4, '(', ')'));
    let balanced = chars("(a(b)c)");
    assert!(!unmatched_closing_delimiter(&balanced, 0, balanced.len(), '(', ')'));
    assert!(unmatched_closing_delimiter(&balanced, 1, balanced.len(), '(', ')'));
}

#[test]
fn chars_start_with_checks_bounds_and_characters() {
    let text = chars("xhttp://");
    assert!(chars_start_with(&text, 1, "http://"));
    assert!(!chars_start_with(&text, 0, "http://"));
    assert!(!chars_start_with(&text, 2, "http://"));
    assert!(!chars_start_with(&text, usize::MAX, "h"));
    assert!(chars_start_with(&text, 8, ""));
}

#[test]
fn spans_skip_zero_width_and_break_on_gaps() {
    let chars = vec![
        PositionedChar { ch: 'a', row: 0, col: 0, width: 1 },
        PositionedChar { ch: '\u{301}', row: 0, col: 0, width: 0 },
        PositionedChar { ch: 'b', row: 0, col: 1, width: 2 },
        PositionedChar { ch: 'c', row: 0, col: 5, width: 1 },
        PositionedChar { ch: 'd', row: 1, col: 0, width: 1 },
    ];
    assert_eq!(
        spans_for_chars(&chars),
        vec![
            TerminalLinkSpan { row: 0, start_col: 0, end_col: 3 },
            TerminalLinkSpan { row: 0, start_col: 5, end_col: 6 },
            TerminalLinkSpan { row: 1, start_col: 0, end_col: 1 },
        ]
    );
}

#[test]
fn row_wraps_is_false_past_recorded_rows() {
    let snapshot = snapshot(&["a"], &[true]);
    assert!(snapshot.row_wraps(0));
    assert!(!snapshot.row_wraps(1));
}

#[test]
fn widths_match_unicode_width() {
    assert_eq!("漢".width(), 2);
}
