use mermaid_ascii::render::{Arms, BoxChars, Canvas, CharSet, Rect};

#[test]
fn test_arms_from_char_horizontal() {
    let a = Arms::from_char('─').unwrap();
    assert!(!a.up && !a.down && a.left && a.right);
}

#[test]
fn test_arms_from_char_vertical() {
    let a = Arms::from_char('│').unwrap();
    assert!(a.up && a.down && !a.left && !a.right);
}

#[test]
fn test_arms_merge_cross() {
    let horiz = Arms::from_char('─').unwrap();
    let vert = Arms::from_char('│').unwrap();
    let merged = horiz.merge(vert);
    assert_eq!(merged.to_char(CharSet::Unicode), '┼');
}

#[test]
fn test_arms_merge_tee_right() {
    let vert = Arms { up: true, down: true, left: false, right: false };
    let right = Arms { up: false, down: false, left: false, right: true };
    let merged = vert.merge(right);
    assert_eq!(merged.to_char(CharSet::Unicode), '├');
}

#[test]
fn test_arms_to_char_ascii_cross() {
    let cross = Arms { up: true, down: true, left: true, right: true };
    assert_eq!(cross.to_char(CharSet::Ascii), '+');
}

#[test]
fn test_canvas_set_get() {
    let mut canvas = Canvas::new(10, 5, CharSet::Unicode);
    canvas.set(3, 2, 'X');
    assert_eq!(canvas.get(3, 2), 'X');
    assert_eq!(canvas.get(0, 0), ' ');
}

#[test]
fn test_canvas_set_out_of_bounds() {
    let mut canvas = Canvas::new(5, 5, CharSet::Unicode);
    canvas.set(10, 10, 'X');
    assert_eq!(canvas.get(10, 10), ' ');
}

#[test]
fn test_canvas_set_merge_junction() {
    let mut canvas = Canvas::new(10, 10, CharSet::Unicode);
    canvas.set(5, 5, '─');
    canvas.set_merge(5, 5, '│');
    assert_eq!(canvas.get(5, 5), '┼');
}

#[test]
fn test_canvas_hline() {
    let mut canvas = Canvas::new(20, 5, CharSet::Unicode);
    canvas.hline(2, 3, 7, '─');
    for col in 3..=7 {
        assert_eq!(canvas.get(col, 2), '─', "col={}", col);
    }
    assert_eq!(canvas.get(2, 2), ' ');
    assert_eq!(canvas.get(8, 2), ' ');
}

#[test]
fn test_canvas_vline() {
    let mut canvas = Canvas::new(10, 20, CharSet::Unicode);
    canvas.vline(4, 2, 8, '│');
    for row in 2..=8 {
        assert_eq!(canvas.get(4, row), '│', "row={}", row);
    }
}

#[test]
fn test_canvas_draw_box() {
    let mut canvas = Canvas::new(20, 10, CharSet::Unicode);
    let bc = BoxChars::unicode();
    let rect = Rect::new(2, 1, 6, 3);
    canvas.draw_box(&rect, &bc);

    assert_eq!(canvas.get(2, 1), '┌');
    assert_eq!(canvas.get(7, 1), '┐');
    assert_eq!(canvas.get(2, 3), '└');
    assert_eq!(canvas.get(7, 3), '┘');

    for col in 3..7 {
        assert_eq!(canvas.get(col, 1), '─', "top col={}", col);
    }

    assert_eq!(canvas.get(2, 2), '│');
    assert_eq!(canvas.get(7, 2), '│');
}

#[test]
fn test_canvas_write_str() {
    let mut canvas = Canvas::new(20, 5, CharSet::Unicode);
    canvas.write_str(3, 2, "hello");
    assert_eq!(canvas.get(3, 2), 'h');
    assert_eq!(canvas.get(4, 2), 'e');
    assert_eq!(canvas.get(7, 2), 'o');
}

#[test]
fn test_canvas_to_string_trims_trailing_spaces() {
    let mut canvas = Canvas::new(10, 3, CharSet::Unicode);
    canvas.set(0, 0, 'A');
    let s = canvas.to_string();
    let lines: Vec<&str> = s.lines().collect();
    assert_eq!(lines[0], "A");
}

#[test]
fn test_hline_vline_junction_merge() {
    let mut canvas = Canvas::new(20, 20, CharSet::Unicode);
    canvas.hline(5, 2, 10, '─');
    canvas.vline(6, 2, 10, '│');
    assert_eq!(canvas.get(6, 5), '┼');
    assert_eq!(canvas.get(6, 3), '│');
}

#[test]
fn test_rect_right_bottom() {
    let r = Rect::new(3, 4, 10, 5);
    assert_eq!(r.right(), 13);
    assert_eq!(r.bottom(), 9);
}

#[test]
fn arms_merge_is_commutative_on_example() {
    let a = Arms { up: true, down: false, left: true, right: false };
    let b = Arms { up: false, down: true, left: false, right: false };
    assert_eq!(a.merge(b).to_char(CharSet::Unicode), b.merge(a).to_char(CharSet::Unicode));
    assert_eq!(a.merge(b).to_char(CharSet::Unicode), '┤');
}

#[test]
fn arms_from_char_unknown_is_none() {
    assert!(Arms::from_char('x').is_none());
    assert!(Arms::from_char(' ').is_none());
}

#[test]
fn arms_roundtrip_box_corner() {
    let a = Arms::from_char('┌').unwrap();
    assert_eq!(a.to_char(CharSet::Unicode), '┌');
    assert_eq!(a.to_char(CharSet::Ascii), '+');
}

#[test]
fn canvas_to_string_lines() {
    let mut canvas = Canvas::new(3, 2, CharSet::Ascii);
    canvas.write_str(0, 1, "ab");
    assert_eq!(canvas.to_string(), "\nab\n");
}

#[test]
fn canvas_set_merge_on_blank_sets_char() {
    let mut canvas = Canvas::new(4, 4, CharSet::Unicode);
    canvas.set_merge(1, 1, '│');
    assert_eq!(canvas.get(1, 1), '│');
    canvas.set_merge(1, 1, 'x');
    assert_eq!(canvas.get(1, 1), 'x');
}
