use brailler::dot_canvas::{DotCanvas, Position};

fn on(c: &DotCanvas, w: usize, h: usize) -> Vec<(usize, usize)> {
    let mut v = Vec::new();
    for y in 0..h {
        for x in 0..w {
            if c.get(x, y) != 0 {
                v.push((x, y));
            }
        }
    }
    v
}

#[test]
fn new_canvas_is_blank() {
    let c = DotCanvas::new(4, 8);
    assert!(on(&c, 4, 8).is_empty());
    assert_eq!(c.to_braille(), "\u{2800}\u{2800}\n\u{2800}\u{2800}\n");
}

#[test]
fn set_and_get_one_dot() {
    let mut c = DotCanvas::new(3, 3);
    c.set(2, 1, 1);
    assert_eq!(c.get(2, 1), 1);
    assert_eq!(on(&c, 3, 3), vec![(2, 1)]);
}

#[test]
fn diagonal_line() {
    let mut c = DotCanvas::new(4, 4);
    c.draw_line(Position { x: 0, y: 0 }, Position { x: 3, y: 3 });
    assert_eq!(on(&c, 4, 4), vec![(0, 0), (1, 1), (2, 2), (3, 3)]);
}

#[test]
fn shallow_line_rounds_toward_start() {
    let mut c = DotCanvas::new(5, 2);
    c.draw_line(Position { x: 0, y: 0 }, Position { x: 4, y: 1 });
    assert_eq!(on(&c, 5, 2), vec![(0, 0), (1, 0), (2, 0), (3, 0), (4, 1)]);
}

#[test]
fn rectangle_outline_and_fill() {
    let mut c = DotCanvas::new(4, 4);
    c.draw_rect(Position { x: 0, y: 0 }, Position { x: 2, y: 2 });
    assert_eq!(on(&c, 4, 4), vec![(0, 0), (1, 0), (2, 0), (0, 1), (2, 1), (0, 2), (1, 2), (2, 2)]);
    let mut f = DotCanvas::new(4, 4);
    f.fill_rect(Position { x: 1, y: 1 }, Position { x: 2, y: 3 });
    assert_eq!(on(&f, 4, 4), vec![(1, 1), (2, 1), (1, 2), (2, 2), (1, 3), (2, 3)]);
}

#[test]
fn small_circle() {
    let mut c = DotCanvas::new(5, 5);
    c.draw_circle(Position { x: 2, y: 2 }, 1);
    assert_eq!(on(&c, 5, 5), vec![(2, 1), (1, 2), (3, 2), (2, 3)]);
    let mut f = DotCanvas::new(5, 5);
    f.fill_circle(Position { x: 2, y: 2 }, 1);
    assert_eq!(on(&f, 5, 5), on(&c, 5, 5));
}

#[test]
fn circle_of_radius_two() {
    let mut c = DotCanvas::new(5, 5);
    c.draw_circle(Position { x: 2, y: 2 }, 2);
    assert_eq!(
        on(&c, 5, 5),
        vec![(1, 0), (2, 0), (3, 0), (0, 1), (4, 1), (0, 2), (4, 2), (0, 3), (4, 3), (1, 4), (2, 4), (3, 4)]
    );
}

#[test]
fn clear_and_clone() {
    let mut c = DotCanvas::new(2, 4);
    c.fill_rect(Position { x: 0, y: 0 }, Position { x: 1, y: 3 });
    let copy = c.clone();
    assert_eq!(copy.to_braille(), "\u{28FF}\n");
    c.clear();
    assert!(on(&c, 2, 4).is_empty());
    assert_eq!(on(&copy, 2, 4).len(), 8);
}

#[test]
fn braille_drops_partial_blocks() {
    let mut c = DotCanvas::new(3, 5);
    c.set(0, 0, 1);
    c.set(2, 4, 1);
    assert_eq!(c.to_braille(), "\u{2801}\n");
}
