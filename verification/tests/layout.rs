use ratatui::layout::{Constraint, Direction, Layout, Rect};
use text_ingest::ui::interface::{centered_rect, main_layout, status_layout, Area};

fn cut(n: u32, q: u32) -> u32 {
    (n * q + 50) / 100
}

fn reach(start: u16, size: u16) -> u32 {
    (start as u32 + size as u32).min(65535) - start as u32
}

fn area(x: u16, y: u16, width: u16, height: u16) -> Area {
    Area { x, y, width, height }
}

fn centred(percent_x: u16, percent_y: u16, r: Area) -> Area {
    let side_x = ((100 - percent_x) / 2) as u32;
    let side_y = ((100 - percent_y) / 2) as u32;
    let columns = reach(r.x, r.width);
    let lines = reach(r.y, r.height);
    let left = cut(columns, side_x);
    let right = cut(columns, side_x + percent_x as u32);
    let top = cut(lines, side_y);
    let bottom = cut(lines, side_y + percent_y as u32);
    Area {
        x: r.x + left as u16,
        y: r.y + top as u16,
        width: (right - left) as u16,
        height: (bottom - top) as u16,
    }
}

fn bars(r: Area) -> (Area, Area, Area) {
    let lines = reach(r.y, r.height) as u16;
    (
        area(r.x, r.y, r.width, 3),
        area(r.x, r.y + 3, r.width, lines - 6),
        area(r.x, r.y + lines - 3, r.width, 3),
    )
}

fn halves(r: Area) -> (Area, Area) {
    let columns = reach(r.x, r.width);
    let left = cut(columns, 50) as u16;
    (area(r.x, r.y, left, r.height), area(r.x + left, r.y, columns as u16 - left, r.height))
}

fn lies_inside(part: Area, r: Area) -> bool {
    part.x >= r.x
        && part.y >= r.y
        && part.x as u32 + part.width as u32 <= r.x as u32 + r.width as u32
        && part.y as u32 + part.height as u32 <= r.y as u32 + r.height as u32
}

fn engine_parts(constraints: Vec<Constraint>, start: u16, size: u16) -> Vec<(u32, u32)> {
    let r = Rect { x: 7, y: start, width: 9, height: size };
    Layout::default()
        .direction(Direction::Vertical)
        .constraints(constraints)
        .split(r)
        .iter()
        .map(|p| (p.y as u32, p.height as u32))
        .collect()
}

#[test]
fn the_status_bar_is_split_into_halves() {
    assert_eq!(status_layout(area(0, 21, 80, 3)), (area(0, 21, 40, 3), area(40, 21, 40, 3)));
    assert_eq!(status_layout(area(2, 5, 81, 3)), (area(2, 5, 41, 3), area(43, 5, 40, 3)));
    assert_eq!(status_layout(area(0, 0, 1, 1)), (area(0, 0, 1, 1), area(1, 0, 0, 1)));
    assert_eq!(status_layout(area(0, 0, 0, 0)), (area(0, 0, 0, 0), area(0, 0, 0, 0)));
}

#[test]
fn the_status_halves_of_every_narrow_area() {
    for width in 0..=8000u16 {
        let r = area(0, 1, width, 3);
        assert_eq!(status_layout(r), halves(r), "width {}", width);
    }
}

#[test]
fn the_status_halves_of_wide_and_far_areas() {
    for width in (8000..=65535u16).step_by(11) {
        let r = area(0, 1, width, 3);
        assert_eq!(status_layout(r), halves(r), "width {}", width);
    }
    for x in [1u16, 30000, 65000, 65534, 65535] {
        for width in (0..=65535u16).step_by(257) {
            let r = area(x, 1, width, 3);
            assert_eq!(status_layout(r), halves(r), "x {} width {}", x, width);
        }
    }
}

#[test]
fn the_main_layout_of_every_low_area() {
    for height in 6..=8000u16 {
        let r = area(4, 0, 50, height);
        assert_eq!(main_layout(r), bars(r), "height {}", height);
    }
}

#[test]
fn the_main_layout_of_high_and_far_areas() {
    for height in (8000..=65535u16).step_by(11) {
        let r = area(4, 0, 50, height);
        assert_eq!(main_layout(r), bars(r), "height {}", height);
    }
    for y in [1u16, 500, 65000, 65529] {
        for height in (6..=65535u16).step_by(257) {
            let r = area(4, y, 50, height);
            if reach(y, height) >= 6 {
                assert_eq!(main_layout(r), bars(r), "y {} height {}", y, height);
            }
        }
    }
}

#[test]
fn the_main_layout_without_room_stays_inside_the_area() {
    for height in 0..6u16 {
        for y in [0u16, 9, 65530, 65535] {
            let r = area(4, y, 50, height);
            let (search, list, status) = main_layout(r);
            for part in [search, list, status] {
                assert!(lies_inside(part, r), "y {} height {}", y, height);
                assert_eq!((part.x, part.width), (4, 50));
            }
        }
    }
}

#[test]
fn the_centred_dialog_takes_its_shares() {
    assert_eq!(centered_rect(80, 90, area(0, 0, 100, 100)), area(10, 5, 80, 90));
    assert_eq!(centered_rect(80, 90, area(0, 0, 80, 24)), area(8, 1, 64, 22));
    assert_eq!(centered_rect(90, 80, area(0, 0, 80, 24)), area(4, 2, 72, 20));
    assert_eq!(centered_rect(0, 0, area(3, 4, 10, 10)), area(8, 9, 0, 0));
    assert_eq!(centered_rect(100, 100, area(3, 4, 10, 10)), area(3, 4, 10, 10));
    assert_eq!(centered_rect(33, 66, area(4, 9, 77, 31)), area(29, 14, 26, 21));
}

#[test]
fn the_centred_dialog_tells_width_from_height() {
    let r = area(0, 0, 200, 100);
    let wide = centered_rect(80, 20, r);
    let high = centered_rect(20, 80, r);
    assert_eq!(wide, area(20, 40, 160, 20));
    assert_eq!(high, area(80, 10, 40, 80));
}

#[test]
fn the_centred_dialog_of_every_share_in_small_areas() {
    for percent in 0..=100u16 {
        for size in 0..=36u16 {
            let r = area(3, 5, size, 36 - size);
            assert_eq!(centered_rect(percent, 100 - percent, r), centred(percent, 100 - percent, r));
        }
    }
}

#[test]
fn the_centred_dialog_of_every_share_in_larger_areas() {
    for percent in 0..=100u16 {
        for size in (37..=65535u16).step_by(1993) {
            let r = area(0, 0, size, 65535 - size);
            assert_eq!(centered_rect(percent, 90, r), centred(percent, 90, r));
        }
        for (x, width) in [(65535u16, 65535u16), (65000, 1000), (65000, 535), (40000, 30000), (1, 65535)] {
            let r = area(x, x, width, width);
            assert_eq!(centered_rect(percent, percent, r), centred(percent, percent, r));
        }
    }
}

#[test]
fn the_centred_dialog_lies_inside_its_area() {
    for percent in (0..=100u16).step_by(7) {
        for size in (0..=400u16).step_by(9) {
            let r = area(11, 13, size, 400 - size);
            assert!(lies_inside(centered_rect(percent, 100 - percent, r), r));
        }
    }
}

#[test]
fn the_layout_engine_places_shares_at_rounded_borders() {
    let mut seed: u32 = 99;
    let mut next = move || {
        seed = seed.wrapping_mul(1664525).wrapping_add(1013904223);
        seed >> 16
    };
    for _ in 0..8000 {
        let count = 1 + next() as usize % 5;
        let mut shares = Vec::new();
        let mut left = 100u32;
        for _ in 0..count {
            let p = next() % (left + 1);
            shares.push(p);
            left -= p;
        }
        let size = (next() % 3000) as u16;
        let parts = engine_parts(shares.iter().map(|&p| Constraint::Percentage(p as u16)).collect(), 2, size);
        let mut sum = 0;
        for (k, part) in parts.iter().enumerate() {
            let from = 2 + cut(size as u32, sum);
            sum += shares[k];
            let to = 2 + cut(size as u32, sum);
            assert_eq!(*part, (from, to - from), "shares {:?} size {} part {}", shares, size, k);
        }
    }
}

#[test]
fn the_layout_engine_holds_two_lengths_and_fills_between() {
    for first in 0..6u16 {
        for least in 0..4u16 {
            for last in 0..6u16 {
                for size in (first + least + last)..40u16 {
                    let parts = engine_parts(
                        vec![Constraint::Length(first), Constraint::Min(least), Constraint::Length(last)],
                        4,
                        size,
                    );
                    let (first, last, size) = (first as u32, last as u32, size as u32);
                    let expected = vec![(4, first), (4 + first, size - first - last), (4 + size - last, last)];
                    assert_eq!(parts, expected, "{} {} {} in {}", first, least, last, size);
                }
            }
        }
    }
}
