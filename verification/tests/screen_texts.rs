use ratatui::layout::{Constraint, Direction, Layout, Rect};
use text_ingest::directory::records::Record;
use text_ingest::directory::state::SelectionState;
use text_ingest::directory::tree::DirectoryTree;
use text_ingest::ui::app::App;
use text_ingest::ui::interface::{
    centered_rect, create_list_item, file_list_rows, main_layout, push_decimal, search_bar, shortcuts_hint,
    status_bar, status_summary, viewport_height_for, Area, RowSpan, StyleKind,
};
use text_ingest::ui::stats::Stats;

fn dir(parent: Option<usize>, name: &str) -> Record {
    Record { parent, name: name.to_string(), is_directory: true, size: None }
}

fn file(parent: Option<usize>, name: &str, size: u64) -> Record {
    Record { parent, name: name.to_string(), is_directory: false, size: Some(size) }
}

fn project() -> App {
    let records = vec![
        dir(None, "proj"),
        dir(Some(0), "src"),
        file(Some(0), "README.md", 100),
        file(Some(1), "main.rs", 2048),
        file(Some(1), "lib.rs", 300),
        dir(Some(0), "docs"),
        file(Some(5), "guide.md", 50),
    ];
    App::new(DirectoryTree::from_records(&records).unwrap())
}

fn plain(spans: &Vec<RowSpan>) -> Vec<(&str, StyleKind)> {
    spans.iter().map(|s| (s.text.as_str(), s.style)).collect()
}

fn area_of(r: Rect) -> Area {
    Area { x: r.x, y: r.y, width: r.width, height: r.height }
}

#[test]
fn push_decimal_writes_every_digit() {
    let mut out = String::from("n=");
    push_decimal(0, &mut out);
    out.push(',');
    push_decimal(7, &mut out);
    out.push(',');
    push_decimal(10, &mut out);
    out.push(',');
    push_decimal(9_876_543_210, &mut out);
    out.push(',');
    push_decimal(u64::MAX, &mut out);
    assert_eq!(out, "n=0,7,10,9876543210,18446744073709551615");
}

#[test]
fn the_row_of_a_file_shows_marks_path_and_size() {
    let app = project();
    let included = StyleKind::State(SelectionState::Included);
    assert_eq!(
        plain(&create_list_item(&app, 3, false)),
        vec![
            ("  ", included),
            ("✓ ", included),
            ("📄 ", StyleKind::Text),
            ("proj/src/main.rs", included),
            (" (2.0 KB)", StyleKind::HelpText),
        ]
    );
}

#[test]
fn the_row_under_the_cursor_has_an_arrow_in_the_selected_style() {
    let app = project();
    let included = StyleKind::State(SelectionState::Included);
    assert_eq!(
        plain(&create_list_item(&app, 1, true)),
        vec![("► ", StyleKind::Selected), ("✓ ", included), ("📁 ", StyleKind::Text), ("proj/src", included)]
    );
}

#[test]
fn the_row_shows_the_mark_of_each_state() {
    let mut app = project();
    app.toggle_at(2);
    let excluded = StyleKind::State(SelectionState::Excluded);
    let partial = StyleKind::State(SelectionState::Partial);
    assert_eq!(
        plain(&create_list_item(&app, 3, false)),
        vec![
            ("  ", excluded),
            ("✗ ", excluded),
            ("📄 ", StyleKind::Text),
            ("proj/src/main.rs", excluded),
            (" (2.0 KB)", StyleKind::HelpText),
        ]
    );
    assert_eq!(
        plain(&create_list_item(&app, 1, false)),
        vec![("  ", partial), ("◐ ", partial), ("📁 ", StyleKind::Text), ("proj/src", partial)]
    );
}

#[test]
fn the_row_of_an_unknown_node_says_so() {
    let app = project();
    assert_eq!(plain(&create_list_item(&app, 7, true)), vec![("Invalid node", StyleKind::Plain)]);
}

#[test]
fn the_list_shows_the_rows_of_the_window() {
    let mut app = project();
    app.set_viewport_height(3);
    app.move_cursor(3);
    assert_eq!((app.selected_index(), app.scroll_offset()), (3, 1));
    let rows = file_list_rows(&app, 5);
    assert_eq!(rows.len(), 3);
    let paths: Vec<&str> = rows.iter().map(|r| r[3].text.as_str()).collect();
    assert_eq!(paths, vec!["proj/src", "proj/src/main.rs", "proj/src/lib.rs"]);
    let arrows: Vec<&str> = rows.iter().map(|r| r[0].text.as_str()).collect();
    assert_eq!(arrows, vec!["  ", "  ", "► "]);
}

#[test]
fn the_list_ends_where_the_filtered_list_ends() {
    let mut app = project();
    app.set_viewport_height(3);
    app.end();
    assert_eq!(app.scroll_offset(), 4);
    let rows = file_list_rows(&app, 12);
    assert_eq!(rows.len(), 3);
    assert_eq!(rows[2][0].text, "► ");
    assert_eq!(rows[2][3].text, "proj/docs/guide.md");
}

#[test]
fn a_list_area_without_room_shows_no_rows() {
    let app = project();
    assert!(file_list_rows(&app, 0).is_empty());
    assert!(file_list_rows(&app, 2).is_empty());
    assert_eq!(file_list_rows(&app, 3).len(), 1);
}

#[test]
fn the_search_bar_shows_a_hint_until_there_is_a_query() {
    let mut app = project();
    let bar = search_bar(&app);
    assert_eq!(bar.text, "Type to search files and directories...");
    assert_eq!(bar.style, StyleKind::HelpText);
    app.set_query("ma".to_string());
    let bar = search_bar(&app);
    assert_eq!(bar.text, "ma");
    assert_eq!(bar.style, StyleKind::Text);
}

#[test]
fn the_window_is_the_frame_without_borders_and_status() {
    assert_eq!(viewport_height_for(0), 0);
    assert_eq!(viewport_height_for(3), 0);
    assert_eq!(viewport_height_for(4), 0);
    assert_eq!(viewport_height_for(5), 1);
    assert_eq!(viewport_height_for(24), 20);
    assert_eq!(viewport_height_for(u16::MAX), 65531);
}

#[test]
fn the_status_summary_lists_the_counters() {
    let stats = Stats { included_files: 2, total_files: 3, included_size: 400, filtered_count: 4 };
    assert_eq!(status_summary(&stats), "Files: 2/3 | Size: 400 B | Filtered: 4");
    let stats = Stats { included_files: 0, total_files: 12345, included_size: 1536, filtered_count: 10 };
    assert_eq!(status_summary(&stats), "Files: 0/12345 | Size: 1.5 KB | Filtered: 10");
}

#[test]
fn the_key_hints_shrink_with_the_width() {
    assert_eq!(shortcuts_hint(81), "↑/↓: Move | Enter: Toggle ✓/✗ | Ctrl+E: Export | Ctrl+H: Help");
    assert_eq!(shortcuts_hint(80), "↑/↓: Move | Enter: Toggle | Ctrl+E: Export | Ctrl+H: Help");
    assert_eq!(shortcuts_hint(61), "↑/↓: Move | Enter: Toggle | Ctrl+E: Export | Ctrl+H: Help");
    assert_eq!(shortcuts_hint(60), "↑/↓: Move | Ctrl+E: Export | Ctrl+H: Help");
    assert_eq!(shortcuts_hint(41), "↑/↓: Move | Ctrl+E: Export | Ctrl+H: Help");
    assert_eq!(shortcuts_hint(40), "↑/↓: Move | Ctrl+E: Export");
    assert_eq!(shortcuts_hint(26), "↑/↓: Move | Ctrl+E: Export");
    assert_eq!(shortcuts_hint(25), "Ctrl+E: Export");
    assert_eq!(shortcuts_hint(0), "Ctrl+E: Export");
}

#[test]
fn the_status_bar_fits_its_hints_beside_the_summary() {
    let stats = Stats { included_files: 2, total_files: 3, included_size: 400, filtered_count: 4 };
    let (left, right) = status_bar(&stats, 200);
    assert_eq!(left, "Files: 2/3 | Size: 400 B | Filtered: 4");
    assert_eq!(right, "↑/↓: Move | Enter: Toggle ✓/✗ | Ctrl+E: Export | Ctrl+H: Help");
    assert_eq!(status_bar(&stats, 123).1, "↑/↓: Move | Enter: Toggle ✓/✗ | Ctrl+E: Export | Ctrl+H: Help");
    assert_eq!(status_bar(&stats, 122).1, "↑/↓: Move | Enter: Toggle | Ctrl+E: Export | Ctrl+H: Help");
    assert_eq!(status_bar(&stats, 100).1, "↑/↓: Move | Ctrl+E: Export | Ctrl+H: Help");
    assert_eq!(status_bar(&stats, 68).1, "↑/↓: Move | Ctrl+E: Export");
    assert_eq!(status_bar(&stats, 67).1, "Ctrl+E: Export");
    assert_eq!(status_bar(&stats, 3).1, "Ctrl+E: Export");
    assert_eq!(status_bar(&stats, 0).1, "Ctrl+E: Export");
}

#[test]
fn the_main_layout_has_two_bars_and_the_list_between() {
    let area = Area { x: 0, y: 0, width: 80, height: 24 };
    let (search, list, status) = main_layout(area);
    assert_eq!(search, Area { x: 0, y: 0, width: 80, height: 3 });
    assert_eq!(list, Area { x: 0, y: 3, width: 80, height: 18 });
    assert_eq!(status, Area { x: 0, y: 21, width: 80, height: 3 });
}

#[test]
fn the_main_layout_follows_the_area() {
    let area = Area { x: 5, y: 2, width: 40, height: 10 };
    let (search, list, status) = main_layout(area);
    assert_eq!(search, Area { x: 5, y: 2, width: 40, height: 3 });
    assert_eq!(list, Area { x: 5, y: 5, width: 40, height: 4 });
    assert_eq!(status, Area { x: 5, y: 9, width: 40, height: 3 });
}

#[test]
fn the_main_layout_is_what_the_layout_engine_gives() {
    for (x, y, width, height) in [(0u16, 0u16, 80u16, 24u16), (3, 4, 10, 5), (0, 0, 1, 1), (0, 0, 0, 0), (7, 7, 200, 2)] {
        let rect = Rect { x, y, width, height };
        let chunks = Layout::default()
            .direction(Direction::Vertical)
            .constraints([Constraint::Length(3), Constraint::Min(0), Constraint::Length(3)])
            .split(rect);
        let got = main_layout(area_of(rect));
        assert_eq!((got.0, got.1, got.2), (area_of(chunks[0]), area_of(chunks[1]), area_of(chunks[2])));
    }
}

#[test]
fn the_centred_dialog_lies_in_the_middle() {
    let popup = centered_rect(80, 90, Area { x: 0, y: 0, width: 100, height: 100 });
    assert_eq!(popup, Area { x: 10, y: 5, width: 80, height: 90 });
    let popup = centered_rect(50, 50, Area { x: 20, y: 10, width: 40, height: 20 });
    assert_eq!(popup, Area { x: 30, y: 15, width: 20, height: 10 });
    let popup = centered_rect(100, 100, Area { x: 1, y: 2, width: 30, height: 40 });
    assert_eq!(popup, Area { x: 1, y: 2, width: 30, height: 40 });
}

#[test]
fn the_centred_dialog_is_what_the_layout_engine_gives() {
    for (px, py, x, y, width, height) in
        [(80u16, 90u16, 0u16, 0u16, 80u16, 24u16), (80, 90, 0, 0, 120, 40), (33, 66, 4, 9, 77, 31), (0, 0, 0, 0, 10, 10), (80, 90, 0, 0, 0, 0)]
    {
        let rect = Rect { x, y, width, height };
        let rows = Layout::default()
            .direction(Direction::Vertical)
            .constraints([
                Constraint::Percentage((100 - py) / 2),
                Constraint::Percentage(py),
                Constraint::Percentage((100 - py) / 2),
            ])
            .split(rect);
        let expected = Layout::default()
            .direction(Direction::Horizontal)
            .constraints([
                Constraint::Percentage((100 - px) / 2),
                Constraint::Percentage(px),
                Constraint::Percentage((100 - px) / 2),
            ])
            .split(rows[1])[1];
        let popup = centered_rect(px, py, area_of(rect));
        assert_eq!(popup, area_of(expected));
        assert!(popup.x >= x && popup.y >= y);
        assert!(popup.x + popup.width <= x + width);
        assert!(popup.y + popup.height <= y + height);
    }
}
