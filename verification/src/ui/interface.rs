//! The texts that the screen shows: sizes, list rows, the search bar and the
//! status bar.

use crate::directory::shape::Shape;
use crate::directory::state::SelectionState;
use crate::directory::tree::Node;
use crate::fuzzy::filter::{display_path, get_node_display_path, names_of};
use crate::ui::app::App;
use crate::ui::stats::Stats;
use ratatui::layout::{Constraint, Direction, Layout, Rect};
use vstd::prelude::*;
use vstd::string::StringExecFns;

verus! {

/// The character of a decimal digit.
pub open spec fn digit_char(d: nat) -> char {
    if d == 0 {
        '0'
    } else if d == 1 {
        '1'
    } else if d == 2 {
        '2'
    } else if d == 3 {
        '3'
    } else if d == 4 {
        '4'
    } else if d == 5 {
        '5'
    } else if d == 6 {
        '6'
    } else if d == 7 {
        '7'
    } else if d == 8 {
        '8'
    } else {
        '9'
    }
}

/// A number written in decimal digits, without leading zeros.
pub open spec fn decimal(n: nat) -> Seq<char>
    decreases n,
{
    if n < 10 {
        seq![digit_char(n)]
    } else {
        decimal(n / 10).push(digit_char(n % 10))
    }
}

/// `value / unit` rounded to the nearest whole number, a tie going to the
/// even neighbour.
pub open spec fn round_half_even(value: nat, unit: nat) -> nat {
    let q = value / unit;
    let r = value % unit;
    if 2 * r > unit || (2 * r == unit && q % 2 == 1) {
        q + 1
    } else {
        q
    }
}

/// The distance between neighbouring numbers at the magnitude of `size` when
/// a number is kept with 53 significant binary digits: 1 below 2^53, and twice
/// as much with each further power of two.
pub open spec fn grain(size: nat) -> nat
    decreases size,
{
    if size < 0x20_0000_0000_0000 {
        1
    } else {
        2 * grain(size / 2)
    }
}

/// `size` kept with 53 significant binary digits, rounded to the nearest such
/// number, a tie going to the one with an even last digit.
pub open spec fn as_double(size: nat) -> nat {
    round_half_even(size, grain(size)) * grain(size)
}

/// Which unit a size is shown in: 0 for bytes, then one more for each factor
/// of 1024, up to 4.
pub open spec fn unit_index(m: nat) -> nat {
    if m < 0x400 {
        0
    } else if m < 0x10_0000 {
        1
    } else if m < 0x4000_0000 {
        2
    } else if m < 0x100_0000_0000 {
        3
    } else {
        4
    }
}

/// How many bytes one of unit `k` holds.
pub open spec fn unit_bytes(k: nat) -> nat {
    if k == 0 {
        1
    } else if k == 1 {
        0x400
    } else if k == 2 {
        0x10_0000
    } else if k == 3 {
        0x4000_0000
    } else {
        0x100_0000_0000
    }
}

/// The name of unit `k`.
pub open spec fn unit_name(k: nat) -> Seq<char> {
    if k == 0 {
        seq!['B']
    } else if k == 1 {
        seq!['K', 'B']
    } else if k == 2 {
        seq!['M', 'B']
    } else if k == 3 {
        seq!['G', 'B']
    } else {
        seq!['T', 'B']
    }
}

/// A size in bytes as shown on screen. Below 1024 it is the number of bytes
/// and ` B`. From there on it is the size in the largest of the units KB, MB,
/// GB, TB that it fills, with one digit after the point, rounded to the
/// nearest tenth with a tie going to the even tenth; sizes from 2^53 on are
/// first rounded to 53 significant binary digits.
pub open spec fn size_text(size: nat) -> Seq<char> {
    let m = as_double(size);
    let k = unit_index(m);
    if k == 0 {
        decimal(size) + seq![' ', 'B']
    } else {
        let tenths = round_half_even(m * 10, unit_bytes(k));
        decimal(tenths / 10) + seq!['.', digit_char(tenths % 10), ' '] + unit_name(k)
    }
}

/// The text of one decimal digit.
fn digit_str(d: u64) -> (r: &'static str)
    requires
        d < 10,
    ensures
        r@ == seq![digit_char(d as nat)],
{
    proof {
        reveal_strlit("0");
        reveal_strlit("1");
        reveal_strlit("2");
        reveal_strlit("3");
        reveal_strlit("4");
        reveal_strlit("5");
        reveal_strlit("6");
        reveal_strlit("7");
        reveal_strlit("8");
        reveal_strlit("9");
    }
    let r = if d == 0 {
        "0"
    } else if d == 1 {
        "1"
    } else if d == 2 {
        "2"
    } else if d == 3 {
        "3"
    } else if d == 4 {
        "4"
    } else if d == 5 {
        "5"
    } else if d == 6 {
        "6"
    } else if d == 7 {
        "7"
    } else if d == 8 {
        "8"
    } else {
        "9"
    };
    assert(r@ =~= seq![digit_char(d as nat)]);
    r
}

/// Appends `n` in decimal digits to `out`.
pub fn push_decimal(n: u64, out: &mut String)
    ensures
        final(out)@ == old(out)@ + decimal(n as nat),
    decreases n,
{
    if n >= 10 {
        push_decimal(n / 10, out);
    }
    out.append(digit_str(n % 10));
    assert(out@ =~= old(out)@ + decimal(n as nat));
}

/// `value / unit`, rounded to the nearest whole number, ties to even.
fn rounded_quotient(value: u128, unit: u128) -> (r: u128)
    requires
        0 < unit <= 0x1_0000_0000_0000_0000,
        value <= 0x10_0000_0000_0000_0000,
    ensures
        r == round_half_even(value as nat, unit as nat),
{
    let q = value / unit;
    let r = value % unit;
    if 2 * r > unit || (2 * r == unit && q % 2 == 1) {
        q + 1
    } else {
        q
    }
}

/// `step` is 1 doubled some number of times.
pub open spec fn is_doubling(step: nat) -> bool
    decreases step,
{
    step == 1 || (step > 1 && step % 2 == 0 && is_doubling(step / 2))
}

/// The grain of every size from `step * 2^52` up to `step * 2^53` is `step`.
proof fn lemma_grain_in_band(size: nat, step: nat)
    requires
        is_doubling(step),
        size < step * 0x20_0000_0000_0000,
        step > 1 ==> size >= step * 0x10_0000_0000_0000,
    ensures
        grain(size) == step,
    decreases step,
{
    if step > 1 {
        lemma_grain_in_band(size / 2, step / 2);
    }
}

/// `size` rounded to a multiple of `step`, for a size from `step * 2^52` up
/// to `step * 2^53`.
fn round_in_band(size: u64, step: u64) -> (m: u128)
    requires
        is_doubling(step as nat),
        2 <= step <= 0x800,
        step * 0x10_0000_0000_0000 <= size < step * 0x20_0000_0000_0000,
    ensures
        m == as_double(size as nat),
        0x20_0000_0000_0000 <= m <= 0x1_0000_0000_0000_0000,
{
    proof {
        lemma_grain_in_band(size as nat, step as nat);
    }
    let q = rounded_quotient(size as u128, step as u128);
    proof {
        let d = size as int / step as int;
        let r = size as int % step as int;
        vstd::arithmetic::div_mod::lemma_fundamental_div_mod(size as int, step as int);
        assert(0x10_0000_0000_0000 <= d < 0x20_0000_0000_0000) by (nonlinear_arith)
            requires
                size == step * d + r,
                0 <= r < step,
                step * 0x10_0000_0000_0000 <= size < step * 0x20_0000_0000_0000,
        ;
        assert(0x20_0000_0000_0000 <= q * step <= 0x1_0000_0000_0000_0000) by (nonlinear_arith)
            requires
                0x10_0000_0000_0000 <= q <= 0x20_0000_0000_0000,
                2 <= step <= 0x800,
        ;
    }
    q * (step as u128)
}

/// `size` rounded to 53 significant binary digits.
fn nearest_double(size: u64) -> (m: u128)
    ensures
        m == as_double(size as nat),
        m <= 0x1_0000_0000_0000_0000,
        size < 0x20_0000_0000_0000 ==> m == size,
        size >= 0x20_0000_0000_0000 ==> m >= 0x20_0000_0000_0000,
{
    proof {
        reveal_with_fuel(is_doubling, 13);
    }
    if size < 0x20_0000_0000_0000 {
        proof {
            let n = size as nat;
            assert(grain(n) == 1);
            assert(n / 1 == n && n % 1 == 0);
            assert(round_half_even(n, 1) == n);
        }
        size as u128
    } else if size < 0x40000000000000 {
        round_in_band(size, 0x2)
    } else if size < 0x80000000000000 {
        round_in_band(size, 0x4)
    } else if size < 0x100000000000000 {
        round_in_band(size, 0x8)
    } else if size < 0x200000000000000 {
        round_in_band(size, 0x10)
    } else if size < 0x400000000000000 {
        round_in_band(size, 0x20)
    } else if size < 0x800000000000000 {
        round_in_band(size, 0x40)
    } else if size < 0x1000000000000000 {
        round_in_band(size, 0x80)
    } else if size < 0x2000000000000000 {
        round_in_band(size, 0x100)
    } else if size < 0x4000000000000000 {
        round_in_band(size, 0x200)
    } else if size < 0x8000000000000000 {
        round_in_band(size, 0x400)
    } else {
        round_in_band(size, 0x800)
    }
}

/// The name of a unit.
fn unit_label(k: usize) -> (r: &'static str)
    requires
        k <= 4,
    ensures
        r@ == unit_name(k as nat),
{
    proof {
        reveal_strlit("B");
        reveal_strlit("KB");
        reveal_strlit("MB");
        reveal_strlit("GB");
        reveal_strlit("TB");
    }
    let r = if k == 0 {
        "B"
    } else if k == 1 {
        "KB"
    } else if k == 2 {
        "MB"
    } else if k == 3 {
        "GB"
    } else {
        "TB"
    };
    assert(r@ =~= unit_name(k as nat));
    r
}

/// A size in bytes as shown on screen: `512 B`, `1.5 KB`, `2.0 MB`.
pub fn format_file_size(size: u64) -> (r: String)
    ensures
        r@ == size_text(size as nat),
{
    let m = nearest_double(size);
    let mut out = String::new();
    proof {
        reveal_strlit(" B");
        reveal_strlit(".");
        reveal_strlit(" ");
    }
    if m < 0x400 {
        push_decimal(size, &mut out);
        out.append(" B");
        assert(out@ =~= size_text(size as nat));
        return out;
    }
    let (k, bytes): (usize, u128) = if m < 0x10_0000 {
        (1, 0x400)
    } else if m < 0x4000_0000 {
        (2, 0x10_0000)
    } else if m < 0x100_0000_0000 {
        (3, 0x4000_0000)
    } else {
        (4, 0x100_0000_0000)
    };
    let tenths = rounded_quotient(m * 10, bytes);
    assert(tenths / 10 <= 0xffff_ffff_ffff_ffff);
    push_decimal((tenths / 10) as u64, &mut out);
    out.append(".");
    out.append(digit_str((tenths % 10) as u64));
    out.append(" ");
    out.append(unit_label(k));
    assert(out@ =~= size_text(size as nat));
    out
}

/// Which of the theme's styles a piece of text is drawn in.
#[derive(Clone, Copy, Debug, PartialEq, Eq, Structural)]
pub enum StyleKind {
    /// No style of its own.
    Plain,
    /// The style of the row under the cursor.
    Selected,
    /// The style of a selection flag.
    State(SelectionState),
    /// The style of ordinary text.
    Text,
    /// The style of hints.
    HelpText,
}

/// A piece of text with the style it is drawn in.
pub struct RowSpan {
    /// The text.
    pub text: String,
    /// Its style.
    pub style: StyleKind,
}

/// A span as plain values.
pub open spec fn span_view(span: RowSpan) -> (Seq<char>, StyleKind) {
    (span.text@, span.style)
}

/// A row of spans as plain values.
pub open spec fn spans_view(spans: Seq<RowSpan>) -> Seq<(Seq<char>, StyleKind)> {
    Seq::new(spans.len(), |i: int| span_view(spans[i]))
}

/// The mark of a selection flag.
pub open spec fn state_mark(state: SelectionState) -> Seq<char> {
    match state {
        SelectionState::Included => "✓"@,
        SelectionState::Excluded => "✗"@,
        SelectionState::Partial => "◐"@,
    }
}

/// The mark that tells a directory from a file.
pub open spec fn kind_mark(is_directory: bool) -> Seq<char> {
    if is_directory {
        "📁"@
    } else {
        "📄"@
    }
}

/// The mark in front of a row: an arrow on the row under the cursor.
pub open spec fn cursor_mark(is_selected: bool) -> Seq<char> {
    if is_selected {
        "► "@
    } else {
        "  "@
    }
}

/// The spans of the row of node `index`: the cursor mark, the flag's mark,
/// the kind's mark, the display path and, for a node with a size, the size in
/// brackets. The flag's style is used for the marks of cursor and flag and
/// for the path, but the cursor mark of the row under the cursor has the
/// style of selection. An index outside the tree gives one plain span.
pub open spec fn row_text(nodes: Seq<Node>, shape: Shape, index: int, is_selected: bool) -> Seq<
    (Seq<char>, StyleKind),
> {
    if 0 <= index < nodes.len() {
        let node = nodes[index];
        let base = StyleKind::State(node.state);
        let head = seq![
            (cursor_mark(is_selected), if is_selected { StyleKind::Selected } else { base }),
            (state_mark(node.state) + " "@, base),
            (kind_mark(node.is_directory) + " "@, StyleKind::Text),
            (display_path(shape, names_of(nodes), index), base),
        ];
        match node.size {
            Some(size) => head.push((" ("@ + size_text(size as nat) + ")"@, StyleKind::HelpText)),
            None => head,
        }
    } else {
        seq![("Invalid node"@, StyleKind::Plain)]
    }
}

/// The mark of a selection flag.
fn state_indicator(state: SelectionState) -> (r: &'static str)
    ensures
        r@ == state_mark(state),
{
    match state {
        SelectionState::Included => "✓",
        SelectionState::Excluded => "✗",
        SelectionState::Partial => "◐",
    }
}

/// The spans of the row of the node at `tree_index`.
pub fn create_list_item(app: &App, tree_index: usize, is_selected: bool) -> (r: Vec<RowSpan>)
    requires
        app.wf(),
    ensures
        spans_view(r@) == row_text(app@.tree.nodes(), app@.tree.shape(), tree_index as int, is_selected),
{
    let tree = app.tree();
    let mut spans: Vec<RowSpan> = Vec::new();
    match tree.get_node(tree_index) {
        Some(node) => {
            let base = StyleKind::State(node.state);
            let (cursor, cursor_style) = if is_selected {
                ("► ", StyleKind::Selected)
            } else {
                ("  ", base)
            };
            spans.push(RowSpan { text: String::from_str(cursor), style: cursor_style });
            let mut flag = String::from_str(state_indicator(node.state));
            flag.append(" ");
            spans.push(RowSpan { text: flag, style: base });
            let mut kind = String::from_str(
                if node.is_directory {
                    "📁"
                } else {
                    "📄"
                },
            );
            kind.append(" ");
            spans.push(RowSpan { text: kind, style: StyleKind::Text });
            spans.push(RowSpan { text: get_node_display_path(tree, tree_index), style: base });
            if let Some(size) = node.size {
                let mut text = String::from_str(" (");
                text.append(format_file_size(size).as_str());
                text.append(")");
                spans.push(RowSpan { text, style: StyleKind::HelpText });
            }
        },
        None => {
            spans.push(RowSpan { text: String::from_str("Invalid node"), style: StyleKind::Plain });
        },
    }
    assert(spans_view(spans@) =~= row_text(
        app@.tree.nodes(),
        app@.tree.shape(),
        tree_index as int,
        is_selected,
    ));
    spans
}

/// Number of list rows that fit into a list area of the given height, two
/// lines of which are border.
pub open spec fn list_rows(area_height: u16) -> int {
    if area_height < 2 {
        0
    } else {
        area_height - 2
    }
}

/// Number of rows the window shows in a frame of the given height, four lines
/// of which are borders and status.
pub fn viewport_height_for(frame_height: u16) -> (r: usize)
    ensures
        r == (if frame_height < 4 {
            0
        } else {
            frame_height - 4
        }),
{
    if frame_height < 4 {
        0
    } else {
        (frame_height - 4) as usize
    }
}

/// Number of rows of the list that are shown: as many as the list area has
/// room for, or as the filtered list has left from the first shown row on.
pub open spec fn shown_rows(area_height: u16, scroll: int, count: int) -> int {
    if count - scroll < list_rows(area_height) {
        count - scroll
    } else {
        list_rows(area_height)
    }
}

/// The rows of the list that are shown: from the first shown row of the
/// filtered list on, as many as fit into the list area, each with the spans
/// of its node. The cursor mark is on the row the cursor is on.
pub fn file_list_rows(app: &App, area_height: u16) -> (r: Vec<Vec<RowSpan>>)
    requires
        app.wf(),
    ensures
        r@.len() == shown_rows(area_height, app@.view.scroll_offset as int, app@.visible.len() as int),
        forall|t: int|
            0 <= t < r@.len() ==> spans_view((#[trigger] r@[t])@) == row_text(
                app@.tree.nodes(),
                app@.tree.shape(),
                app@.visible[app@.view.scroll_offset + t] as int,
                app@.view.scroll_offset + t == app@.view.selected_index,
            ),
{
    let rows: usize = if area_height < 2 {
        0
    } else {
        (area_height - 2) as usize
    };
    let items = &app.filtered_results().visible_items;
    let first = app.scroll_offset();
    let selected = app.selected_index();
    let mut out: Vec<Vec<RowSpan>> = Vec::new();
    let mut position: usize = first;
    while position < items.len() && out.len() < rows
        invariant
            app.wf(),
            items@ == app@.visible,
            first == app@.view.scroll_offset,
            first <= items@.len(),
            selected == app@.view.selected_index,
            rows == list_rows(area_height),
            position == first + out@.len(),
            position <= items@.len(),
            out@.len() <= rows,
            forall|t: int|
                0 <= t < out@.len() ==> spans_view((#[trigger] out@[t])@) == row_text(
                    app@.tree.nodes(),
                    app@.tree.shape(),
                    items@[first + t] as int,
                    first + t == selected,
                ),
        decreases items@.len() - position,
    {
        let row = create_list_item(app, items[position], position == selected);
        out.push(row);
        position += 1;
    }
    out
}

/// What the search bar shows: the query, or a hint while there is none.
pub open spec fn search_bar_text(query: Seq<char>) -> (Seq<char>, StyleKind) {
    if query.len() == 0 {
        ("Type to search files and directories..."@, StyleKind::HelpText)
    } else {
        (query, StyleKind::Text)
    }
}

/// What the search bar shows.
pub fn search_bar(app: &App) -> (r: RowSpan)
    ensures
        span_view(r) == search_bar_text(app@.query),
{
    let query = app.search_query();
    if query.as_str().is_empty() {
        RowSpan { text: String::from_str("Type to search files and directories..."), style: StyleKind::HelpText }
    } else {
        RowSpan { text: query.clone(), style: StyleKind::Text }
    }
}

/// The counters as the status bar shows them.
pub open spec fn summary_text(stats: Stats) -> Seq<char> {
    "Files: "@ + decimal(stats.included_files as nat) + "/"@ + decimal(stats.total_files as nat) + " | Size: "@
        + size_text(stats.included_size as nat) + " | Filtered: "@ + decimal(stats.filtered_count as nat)
}

/// The width left for the key hints in a status bar of the given width, four
/// columns of which are border, beside a summary of the given length.
pub open spec fn remaining_width(area_width: u16, summary_len: nat) -> int {
    let available = if area_width < 4 {
        0
    } else {
        area_width - 4
    };
    if available < summary_len {
        0
    } else {
        available - summary_len
    }
}

/// The key hints that fit into the remaining width.
pub open spec fn hint_text(remaining: int) -> Seq<char> {
    if remaining > 80 {
        "↑/↓: Move | Enter: Toggle ✓/✗ | Ctrl+E: Export | Ctrl+H: Help"@
    } else if remaining > 60 {
        "↑/↓: Move | Enter: Toggle | Ctrl+E: Export | Ctrl+H: Help"@
    } else if remaining > 40 {
        "↑/↓: Move | Ctrl+E: Export | Ctrl+H: Help"@
    } else if remaining > 25 {
        "↑/↓: Move | Ctrl+E: Export"@
    } else {
        "Ctrl+E: Export"@
    }
}

/// The counters as the status bar shows them.
pub fn status_summary(stats: &Stats) -> (r: String)
    ensures
        r@ == summary_text(*stats),
{
    let mut out = String::from_str("Files: ");
    push_decimal(stats.included_files as u64, &mut out);
    out.append("/");
    push_decimal(stats.total_files as u64, &mut out);
    out.append(" | Size: ");
    out.append(stats.format_size().as_str());
    out.append(" | Filtered: ");
    push_decimal(stats.filtered_count as u64, &mut out);
    assert(out@ =~= summary_text(*stats));
    out
}

/// The key hints that fit into the remaining width.
pub fn shortcuts_hint(remaining: usize) -> (r: &'static str)
    ensures
        r@ == hint_text(remaining as int),
{
    if remaining > 80 {
        "↑/↓: Move | Enter: Toggle ✓/✗ | Ctrl+E: Export | Ctrl+H: Help"
    } else if remaining > 60 {
        "↑/↓: Move | Enter: Toggle | Ctrl+E: Export | Ctrl+H: Help"
    } else if remaining > 40 {
        "↑/↓: Move | Ctrl+E: Export | Ctrl+H: Help"
    } else if remaining > 25 {
        "↑/↓: Move | Ctrl+E: Export"
    } else {
        "Ctrl+E: Export"
    }
}

/// The two texts of the status bar in an area of the given width: the
/// counters on the left, and on the right the key hints that fit beside them.
pub fn status_bar(stats: &Stats, area_width: u16) -> (r: (String, &'static str))
    ensures
        r.0@ == summary_text(*stats),
        r.1@ == hint_text(remaining_width(area_width, summary_text(*stats).len())),
{
    let left = status_summary(stats);
    let available: usize = if area_width < 4 {
        0
    } else {
        (area_width - 4) as usize
    };
    let used = left.as_str().unicode_len();
    let remaining = if available < used {
        0
    } else {
        available - used
    };
    (left, shortcuts_hint(remaining))
}

/// A rectangle of the screen.
#[derive(Clone, Copy, Debug, PartialEq, Eq, Structural)]
pub struct Area {
    /// Column of the left edge.
    pub x: u16,
    /// Line of the top edge.
    pub y: u16,
    /// Number of columns.
    pub width: u16,
    /// Number of lines.
    pub height: u16,
}

/// How much of an area one part of a split asks for.
#[derive(Clone, Copy, Debug)]
enum Extent {
    /// Exactly this many cells.
    Length(u16),
    /// At least this many cells.
    Min(u16),
    /// This many hundredths of the area.
    Percentage(u16),
}

/// The direction in which the parts of a split follow each other.
#[derive(Clone, Copy, Debug)]
enum Axis {
    /// One below the other.
    Vertical,
    /// Side by side.
    Horizontal,
}

/// `part` lies inside `area`.
pub open spec fn inside(part: Area, area: Area) -> bool {
    &&& area.x <= part.x
    &&& part.x + part.width <= area.x + area.width
    &&& area.y <= part.y
    &&& part.y + part.height <= area.y + area.height
}

/// `part` reaches across `area`, from edge to edge, in the direction that the
/// split does not divide.
spec fn spans_across(part: Area, area: Area, axis: Axis) -> bool {
    match axis {
        Axis::Vertical => part.x == area.x && part.width == area.width,
        Axis::Horizontal => part.y == area.y && part.height == area.height,
    }
}

/// `q` hundredths of `n` cells, rounded to the nearest cell, a half going up.
pub open spec fn cut(n: int, q: int) -> int {
    (n * q + 50) / 100
}

/// The cells that are laid out of a stretch of `size` cells from cell `start`
/// on: all of them, but none beyond cell 65535.
pub open spec fn reach(start: u16, size: u16) -> int {
    if start + size > u16::MAX {
        u16::MAX - start
    } else {
        size as int
    }
}

/// Where `a` starts in the direction of the split.
spec fn start_along(a: Area, axis: Axis) -> int {
    match axis {
        Axis::Vertical => a.y as int,
        Axis::Horizontal => a.x as int,
    }
}

/// How far `a` extends in the direction of the split.
spec fn size_along(a: Area, axis: Axis) -> int {
    match axis {
        Axis::Vertical => a.height as int,
        Axis::Horizontal => a.width as int,
    }
}

/// The cells of `area` that are laid out in the direction of the split.
spec fn reach_along(area: Area, axis: Axis) -> int {
    match axis {
        Axis::Vertical => reach(area.y, area.height),
        Axis::Horizontal => reach(area.x, area.width),
    }
}

/// Every part asks for a share of the area.
spec fn all_shares(extents: Seq<Extent>) -> bool {
    forall|k: int| 0 <= k < extents.len() ==> #[trigger] extents[k] is Percentage
}

/// The hundredths that the first `k` parts ask for together.
spec fn shares_before(extents: Seq<Extent>, k: int) -> int
    decreases k,
{
    if k <= 0 {
        0
    } else {
        shares_before(extents, k - 1) + (match extents[k - 1] {
            Extent::Percentage(p) => p as int,
            _ => 0,
        })
    }
}

/// Each part begins where the shares before it end and ends where its own
/// share ends, each border rounded to a whole cell.
spec fn placed_by_shares(parts: Seq<Area>, extents: Seq<Extent>, area: Area, axis: Axis) -> bool {
    forall|k: int|
        0 <= k < parts.len() ==> {
            let part = #[trigger] parts[k];
            &&& start_along(part, axis) == start_along(area, axis) + cut(
                reach_along(area, axis),
                shares_before(extents, k),
            )
            &&& start_along(part, axis) + size_along(part, axis) == start_along(area, axis) + cut(
                reach_along(area, axis),
                shares_before(extents, k + 1),
            )
        }
}

/// The cells asked for by a length, a minimum and a length.
struct Bars {
    first: int,
    least: int,
    last: int,
}

/// The cells asked for, where the constraints are a length, a minimum and a
/// length in this order.
spec fn bars_of(extents: Seq<Extent>) -> Option<Bars> {
    if extents.len() == 3 {
        match (extents[0], extents[1], extents[2]) {
            (Extent::Length(first), Extent::Min(least), Extent::Length(last)) => Some(
                Bars { first: first as int, least: least as int, last: last as int },
            ),
            _ => None,
        }
    } else {
        None
    }
}

/// The first of three parts has `first` cells at the start of the area, the
/// last has `last` cells at its end, and the middle one has what lies between.
spec fn placed_as_bars(parts: Seq<Area>, first: int, last: int, area: Area, axis: Axis) -> bool {
    let from = start_along(area, axis);
    let cells = reach_along(area, axis);
    &&& parts.len() == 3
    &&& start_along(parts[0], axis) == from && size_along(parts[0], axis) == first
    &&& start_along(parts[1], axis) == from + first && size_along(parts[1], axis) == cells - first - last
    &&& start_along(parts[2], axis) == from + cells - last && size_along(parts[2], axis) == last
}

/// Calls `ratatui::layout::Layout::split` on a layout with the given
/// direction and constraints, no margin, no spacing and the default flex
/// (`Start`). Believed of it, from its source:
///
/// - It returns one part for each constraint, and each part keeps the area's
///   position and size across the direction of the split.
/// - Along that direction each part lies between the area's two edges, which
///   the layout demands of every part as a required constraint. The far edge
///   is taken no further than cell 65535 (`reach`).
/// - Where all constraints are percentages that add up to at most 100, each
///   part begins where the shares before it end. Nothing of equal or greater
///   strength competes with a percentage there: the spacers between parts are
///   held at size 0 more strongly and agree with it, and what does compete,
///   the wish of the spacer after the last part to grow and the wish of all
///   parts to be of one size, is weaker by a factor of ten thousand or more.
///   Each border is a whole number of hundredths of a cell and is rounded to
///   the nearest cell, a half going up.
/// - Where the constraints are a length, a minimum and a length that fit into
///   the area together, the two lengths are held, being stronger than the
///   wish of the middle part to grow, and the middle part takes all the rest,
///   its wish to grow being ten times stronger than that of the spacer after
///   the last part.
///
/// For other constraints, or where they do not fit, constraints of equal
/// strength compete and the solver's answer may differ from run to run, so
/// no more is said.
#[verifier::external_body]
fn split_area(axis: Axis, extents: &Vec<Extent>, area: Area) -> (parts: Vec<Area>)
    ensures
        parts@.len() == extents@.len(),
        forall|k: int| 0 <= k < parts@.len() ==> inside(#[trigger] parts@[k], area),
        forall|k: int| 0 <= k < parts@.len() ==> spans_across(#[trigger] parts@[k], area, axis),
        all_shares(extents@) && shares_before(extents@, extents@.len() as int) <= 100 ==> placed_by_shares(
            parts@,
            extents@,
            area,
            axis,
        ),
        bars_of(extents@) is Some && bars_of(extents@)->0.first + bars_of(extents@)->0.least + bars_of(
            extents@,
        )->0.last <= reach_along(area, axis) ==> placed_as_bars(
            parts@,
            bars_of(extents@)->0.first,
            bars_of(extents@)->0.last,
            area,
            axis,
        ),
{
    let direction = match axis {
        Axis::Vertical => Direction::Vertical,
        Axis::Horizontal => Direction::Horizontal,
    };
    let constraints = extents.iter().map(|e| match *e {
        Extent::Length(n) => Constraint::Length(n),
        Extent::Min(n) => Constraint::Min(n),
        Extent::Percentage(n) => Constraint::Percentage(n),
    });
    let rect = Rect { x: area.x, y: area.y, width: area.width, height: area.height };
    let parts = Layout::new(direction, constraints).split(rect);
    parts.iter().map(|r| Area { x: r.x, y: r.y, width: r.width, height: r.height }).collect()
}

/// What the main screen asks of the layout: three lines, then at least
/// nothing, then three lines.
fn main_extents() -> (r: Vec<Extent>)
    ensures
        r@ =~= seq![Extent::Length(3), Extent::Min(0), Extent::Length(3)],
{
    let mut extents: Vec<Extent> = Vec::new();
    extents.push(Extent::Length(3));
    extents.push(Extent::Min(0));
    extents.push(Extent::Length(3));
    extents
}

/// The areas of the search bar, the list and the status bar, each reaching
/// across the width of the area. Where the area has six lines or more, the
/// search bar is its first three lines, the status bar its last three, and
/// the list all that lies between. A lower area has no room for both bars;
/// how they share it is left to the layout engine, and the three areas lie
/// inside the area.
pub fn main_layout(area: Area) -> (r: (Area, Area, Area))
    ensures
        inside(r.0, area) && r.0.x == area.x && r.0.width == area.width,
        inside(r.1, area) && r.1.x == area.x && r.1.width == area.width,
        inside(r.2, area) && r.2.x == area.x && r.2.width == area.width,
        reach(area.y, area.height) >= 6 ==> {
            &&& r.0.y == area.y && r.0.height == 3
            &&& r.1.y == area.y + 3 && r.1.height == reach(area.y, area.height) - 6
            &&& r.2.y == area.y + reach(area.y, area.height) - 3 && r.2.height == 3
        },
{
    let parts = split_area(Axis::Vertical, &main_extents(), area);
    (parts[0], parts[1], parts[2])
}

/// What the status bar asks of the layout: two halves.
fn status_extents() -> (r: Vec<Extent>)
    ensures
        r@ =~= seq![Extent::Percentage(50), Extent::Percentage(50)],
{
    let mut extents: Vec<Extent> = Vec::new();
    extents.push(Extent::Percentage(50));
    extents.push(Extent::Percentage(50));
    extents
}

/// The two halves of the status bar, side by side, each reaching from the top
/// of the area to its bottom. The left half has half the columns, an odd one
/// going to it; the right half has the rest.
pub fn status_layout(area: Area) -> (r: (Area, Area))
    ensures
        inside(r.0, area) && r.0.y == area.y && r.0.height == area.height,
        inside(r.1, area) && r.1.y == area.y && r.1.height == area.height,
        r.0.x == area.x,
        r.0.width == cut(reach(area.x, area.width), 50),
        r.1.x == area.x + cut(reach(area.x, area.width), 50),
        r.1.x + r.1.width == area.x + reach(area.x, area.width),
{
    let extents = status_extents();
    proof {
        reveal_with_fuel(shares_before, 3);
    }
    let parts = split_area(Axis::Horizontal, &extents, area);
    proof {
        assert(placed_by_shares(parts@, extents@, area, Axis::Horizontal));
        let left = parts@[0];
        let right = parts@[1];
        assert(cut(reach(area.x, area.width), 0) == 0);
        assert(cut(reach(area.x, area.width), 100) == reach(area.x, area.width));
    }
    (parts[0], parts[1])
}

/// The share of an area, in hundredths, left on each side of a centred part
/// that takes `percent` hundredths.
pub open spec fn side_share(percent: u16) -> int {
    (100 - percent) / 2
}

/// The three parts that centre a share of `percent` hundredths.
fn centred_extents(percent: u16) -> (r: Vec<Extent>)
    requires
        percent <= 100,
    ensures
        r@ =~= seq![
            Extent::Percentage(side_share(percent) as u16),
            Extent::Percentage(percent),
            Extent::Percentage(side_share(percent) as u16),
        ],
{
    let side = (100 - percent) / 2;
    let mut extents: Vec<Extent> = Vec::new();
    extents.push(Extent::Percentage(side));
    extents.push(Extent::Percentage(percent));
    extents.push(Extent::Percentage(side));
    extents
}

/// The area of a dialog centred in `r` that takes `percent_x` hundredths of
/// its width and `percent_y` hundredths of its height. Its top lies where the
/// share left above it ends and its bottom where its own share ends, each
/// rounded to a whole line; its left and right edges lie likewise among the
/// columns.
pub fn centered_rect(percent_x: u16, percent_y: u16, r: Area) -> (popup: Area)
    requires
        percent_x <= 100,
        percent_y <= 100,
    ensures
        inside(popup, r),
        popup.x == r.x + cut(reach(r.x, r.width), side_share(percent_x)),
        popup.x + popup.width == r.x + cut(reach(r.x, r.width), side_share(percent_x) + percent_x),
        popup.y == r.y + cut(reach(r.y, r.height), side_share(percent_y)),
        popup.y + popup.height == r.y + cut(reach(r.y, r.height), side_share(percent_y) + percent_y),
{
    let across = centred_extents(percent_y);
    let along = centred_extents(percent_x);
    proof {
        reveal_with_fuel(shares_before, 4);
    }
    let rows = split_area(Axis::Vertical, &across, r);
    let band = rows[1];
    let columns = split_area(Axis::Horizontal, &along, band);
    proof {
        assert(placed_by_shares(rows@, across@, r, Axis::Vertical));
        assert(placed_by_shares(columns@, along@, band, Axis::Horizontal));
        let popup = columns@[1];
        assert(spans_across(band, r, Axis::Vertical));
        assert(spans_across(popup, band, Axis::Horizontal));
    }
    columns[1]
}

} // verus!
