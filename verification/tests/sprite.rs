use alphgen::error::FontError;
use alphgen::sprite::contour_points;
use alphgen::sprite::Direction;
use alphgen::sprite::Edge;
use alphgen::sprite::EdgeSet;
use alphgen::sprite::Sprite;
use std::collections::VecDeque;

fn normalize_contour(contour: &mut [(usize, usize)]) {
    let mut curr: VecDeque<(usize, usize)> = contour.iter().copied().collect();
    let mut best = curr.clone();
    let mut rotation = 0;
    for r in 1..contour.len() {
        curr.rotate_left(1);
        if curr < best {
            best = curr.clone();
            rotation = r;
        }
    }
    contour.rotate_left(rotation);
}

fn normalize_contours(contours: &mut [Vec<(usize, usize)>]) {
    for c in contours.iter_mut() {
        normalize_contour(c);
    }
    contours.sort_unstable();
}

#[test]
fn serializes_a() {
    let a = vec![
        0b00010000,
        0b00101000,
        0b00101000,
        0b01000100,
        0b01111100,
        0b10000010,
        0b10000010,
        0b00000000,
    ];
    let sprite = Sprite {
        data: a,
        width: 8,
        height: 8,
    };
    let mut actual = sprite.find_contours();
    let mut expected = vec![
        vec![(0, 1), (1, 1), (1, 3), (0, 3)],
        vec![(1, 3), (6, 3), (6, 5), (5, 5), (5, 4), (2, 4), (2, 5), (1, 5)],
        vec![(2, 5), (3, 5), (3, 7), (2, 7)],
        vec![(3, 7), (4, 7), (4, 8), (3, 8)],
        vec![(4, 5), (5, 5), (5, 7), (4, 7)],
        vec![(6, 1), (7, 1), (7, 3), (6, 3)],
    ];

    normalize_contours(&mut actual);
    normalize_contours(&mut expected);
    assert_eq!(actual, expected);
}

#[test]
fn contours_come_in_the_order_of_their_first_corner() {
    let sprite = Sprite { data: vec![0xff, 0x99, 0xa5, 0x89, 0x91, 0x81, 0x91, 0xff], width: 8, height: 8 };
    let expected: Vec<Vec<(usize, usize)>> = vec![
        vec![(8, 0), (8, 8), (0, 8), (0, 0)],
        vec![(1, 7), (3, 7), (3, 6), (5, 6), (5, 7), (7, 7), (7, 1), (4, 1), (4, 2), (3, 2), (3, 1), (1, 1)],
        vec![(4, 3), (4, 4), (3, 4), (3, 3)],
        vec![(5, 4), (5, 5), (4, 5), (4, 4)],
        vec![(3, 5), (3, 6), (2, 6), (2, 5)],
        vec![(6, 5), (6, 6), (5, 6), (5, 5)],
    ];
    assert_eq!(sprite.find_contours(), expected);
}

/// The pixels that the contours enclose, filled pixels on the right of
/// every edge: in each row a pixel is filled where one more edge runs up
/// than down on its left.
fn fill(contours: &[Vec<(usize, usize)>], width: usize, height: usize) -> Vec<Vec<bool>> {
    let mut turns = vec![vec![0i32; width + 1]; height];
    for contour in contours {
        for (i, &(x0, y0)) in contour.iter().enumerate() {
            let (x1, y1) = contour[(i + 1) % contour.len()];
            assert!(x0 == x1 || y0 == y1, "edges run along the grid");
            assert!((x0, y0) != (x1, y1), "no edge is empty");
            if x0 == x1 {
                if y1 < y0 {
                    for y in y1..y0 {
                        turns[y][x0] += 1;
                    }
                } else {
                    for y in y0..y1 {
                        turns[y][x0] -= 1;
                    }
                }
            }
        }
    }
    let mut pixels = vec![vec![false; width]; height];
    for y in 0..height {
        let mut inside = 0;
        for x in 0..width {
            inside += turns[y][x];
            assert!(inside == 0 || inside == 1);
            pixels[y][x] = inside == 1;
        }
        assert_eq!(inside + turns[y][width], 0);
    }
    pixels
}

fn assert_round_trip(data: Vec<u8>, width: usize, height: usize) -> usize {
    let sprite = Sprite { data, width, height };
    assert_eq!(sprite.check(), Ok(()));
    let contours = sprite.find_contours();
    for contour in &contours {
        assert!(contour.len() >= 4);
        for (i, &(x, y)) in contour.iter().enumerate() {
            assert!(x <= width && y <= height);
            // every corner is a turn: no three corners in a row lie on a line
            let (px, py) = contour[(i + contour.len() - 1) % contour.len()];
            let (nx, ny) = contour[(i + 1) % contour.len()];
            assert!((px == x) != (nx == x));
            assert!((py == y) != (ny == y));
        }
    }
    let pixels = fill(&contours, width, height);
    for y in 0..height {
        for x in 0..width {
            assert_eq!(pixels[y][x], sprite.index((x, y)), "pixel ({x}, {y})");
        }
    }
    contours.len()
}

#[test]
fn contours_enclose_the_filled_pixels() {
    // nothing
    assert_eq!(assert_round_trip(vec![0; 8], 8, 8), 0);
    // everything
    assert_eq!(assert_round_trip(vec![0xff; 8], 8, 8), 1);
    // a single pixel
    assert_eq!(assert_round_trip(vec![0, 0, 0, 0x10, 0, 0, 0, 0], 8, 8), 1);
    // a single pixel in each corner
    assert_eq!(assert_round_trip(vec![0x81, 0, 0, 0, 0, 0, 0, 0x81], 8, 8), 4);
    // two shapes apart
    assert_eq!(assert_round_trip(vec![0xc0, 0xc0, 0, 0, 0, 0x07, 0x07, 0x07], 8, 8), 2);
    // a ring: the hole has a boundary of its own
    assert_eq!(assert_round_trip(vec![0, 0x7e, 0x42, 0x42, 0x42, 0x7e, 0, 0], 8, 8), 2);
    // a ring in a ring
    assert_eq!(assert_round_trip(vec![0xff, 0x81, 0xbd, 0xa5, 0xa5, 0xbd, 0x81, 0xff], 8, 8), 4);
    // pixels that touch at corners only
    assert_eq!(assert_round_trip(vec![0xaa, 0x55, 0xaa, 0x55, 0xaa, 0x55, 0xaa, 0x55], 8, 8), 32);
    // letters
    assert_eq!(assert_round_trip(vec![0x00, 0x00, 0x70, 0x88, 0x88, 0x98, 0x68, 0x00], 8, 8), 4);
    assert_eq!(assert_round_trip(vec![0x10, 0x28, 0x28, 0x44, 0x7c, 0x82, 0x82, 0x00], 8, 8), 6);
}

#[test]
fn contours_of_sprites_that_are_not_square() {
    assert_eq!(assert_round_trip(vec![0b1011_0100], 8, 1), 3);
    assert_eq!(assert_round_trip(vec![0b1011_0100], 1, 8), 3);
    assert_eq!(assert_round_trip(vec![0b1011_0100, 0xff], 3, 5), 1);
    assert_eq!(assert_round_trip(vec![0x5a, 0xa5, 0x3c], 12, 2), 4);
    assert_eq!(assert_round_trip(vec![], 0, 7), 0);
    assert_eq!(assert_round_trip(vec![], 7, 0), 0);
    assert_eq!(assert_round_trip(vec![1], 1, 1), 1);
    assert_eq!(assert_round_trip(vec![0xfe], 1, 1), 0);
}

#[test]
fn single_pixel_contour() {
    let sprite = Sprite { data: vec![1], width: 1, height: 1 };
    assert_eq!(sprite.find_contours(), vec![vec![(1, 0), (1, 1), (0, 1), (0, 0)]]);
    // the loop starts behind the first boundary edge and ends with it
    let loops = sprite.trace_loops();
    assert_eq!(loops.len(), 1);
    assert_eq!(
        loops[0],
        vec![
            Edge { x: 1, y: 0, direction: Direction::Down },
            Edge { x: 1, y: 1, direction: Direction::Left },
            Edge { x: 0, y: 1, direction: Direction::Up },
            Edge { x: 0, y: 0, direction: Direction::Right },
        ]
    );
}

#[test]
fn pixel_index_flips_both_axes() {
    // the first bit of the bitmap is the top left pixel
    let sprite = Sprite { data: vec![0x80, 0x00, 0x01], width: 8, height: 3 };
    assert!(sprite.index((0, 2)));
    assert!(sprite.index((7, 0)));
    assert!(!sprite.index((0, 0)));
    assert!(!sprite.index((7, 2)));
    assert!(!sprite.index((3, 1)));
    assert_eq!(sprite.width(), 8);
    assert_eq!(sprite.height(), 3);
}

#[test]
fn sprite_check_finds_what_is_wrong() {
    assert_eq!(Sprite { data: vec![0; 8], width: 8, height: 8 }.check(), Ok(()));
    assert_eq!(Sprite { data: vec![0; 9], width: 8, height: 8 }.check(), Ok(()));
    assert_eq!(Sprite { data: vec![0; 7], width: 8, height: 8 }.check(), Err(FontError::BitmapTooShort));
    assert_eq!(Sprite { data: vec![0; 1], width: 3, height: 3 }.check(), Err(FontError::BitmapTooShort));
    assert_eq!(Sprite { data: vec![0; 2], width: 3, height: 3 }.check(), Ok(()));
    assert_eq!(Sprite { data: vec![], width: 0, height: 0 }.check(), Ok(()));
    assert_eq!(Sprite { data: vec![], width: 0x8000, height: 0 }.check(), Err(FontError::TooLarge));
    assert_eq!(Sprite { data: vec![], width: 0, height: 0x8000 }.check(), Err(FontError::TooLarge));
    assert_eq!(Sprite { data: vec![], width: 0x7fff, height: 0 }.check(), Ok(()));
    // too large comes before too short
    assert_eq!(Sprite { data: vec![], width: 0x8000, height: 1 }.check(), Err(FontError::TooLarge));
}

#[test]
fn directions_turn_clockwise() {
    assert_eq!(Direction::Up.turn(Direction::Right), Direction::Right);
    assert_eq!(Direction::Left.turn(Direction::Right), Direction::Up);
    assert_eq!(Direction::Right.turn(Direction::Down), Direction::Left);
    assert_eq!(Direction::Down.turn(Direction::Left), Direction::Right);
    assert_eq!(Direction::Down.turn(Direction::Up), Direction::Down);
    for n in 0..4u8 {
        assert_eq!(Direction::from(n).index(), n);
    }
}

#[test]
fn edges_of_a_pixel_run_clockwise() {
    let around = Edge::surrounding(2, 3);
    assert_eq!(
        around,
        [
            Edge { x: 2, y: 4, direction: Direction::Up },
            Edge { x: 2, y: 3, direction: Direction::Right },
            Edge { x: 3, y: 3, direction: Direction::Down },
            Edge { x: 3, y: 4, direction: Direction::Left },
        ]
    );
    for i in 0..4 {
        let next = around[(i + 1) % 4];
        assert_eq!(around[i].dest(), (next.x, next.y));
    }
    assert_eq!(around[1].complement(), Edge { x: 3, y: 3, direction: Direction::Left });
    assert_eq!(around[1].complement().complement(), around[1]);
    // the neighbour on the right has the same segment the other way round
    assert_eq!(Edge::surrounding(3, 3)[0], around[2].complement());
}

#[test]
fn edge_set_inserts_and_removes() {
    let mut set = EdgeSet::new(2, 2);
    let e = Edge { x: 2, y: 2, direction: Direction::Left };
    let f = Edge { x: 2, y: 2, direction: Direction::Up };
    assert!(!set.has(&e));
    assert!(set.insert(e));
    assert!(!set.insert(e));
    assert!(set.has(&e));
    assert!(!set.has(&f));
    assert!(!set.remove(&f));
    assert!(set.remove(&e));
    assert!(!set.remove(&e));
    assert!(!set.has(&e));
    // an edge outside the grid is in no set
    assert!(!set.has(&Edge { x: 3, y: 0, direction: Direction::Up }));
    assert!(!set.remove(&Edge { x: 0, y: 3, direction: Direction::Up }));
}

#[test]
fn boundary_edges_are_the_sides_between_filled_and_empty() {
    // two filled pixels side by side
    let sprite = Sprite { data: vec![0b11], width: 2, height: 1 };
    let edges = sprite.boundary_edges();
    let expected = [
        Edge { x: 0, y: 1, direction: Direction::Up },
        Edge { x: 0, y: 0, direction: Direction::Right },
        Edge { x: 1, y: 0, direction: Direction::Right },
        Edge { x: 2, y: 0, direction: Direction::Down },
        Edge { x: 2, y: 1, direction: Direction::Left },
        Edge { x: 1, y: 1, direction: Direction::Left },
    ];
    let mut count = 0;
    for y in 0..=1 {
        for x in 0..=2 {
            for n in 0..4u8 {
                let e = Edge { x, y, direction: Direction::from(n) };
                assert_eq!(edges.has(&e), expected.contains(&e), "{e:?}");
                if edges.has(&e) {
                    count += 1;
                }
            }
        }
    }
    assert_eq!(count, 6);
}

#[test]
fn contour_points_start_behind_a_turn() {
    // a loop that starts in the middle of a straight run
    let edges = vec![
        Edge { x: 1, y: 0, direction: Direction::Right },
        Edge { x: 2, y: 0, direction: Direction::Down },
        Edge { x: 2, y: 1, direction: Direction::Left },
        Edge { x: 1, y: 1, direction: Direction::Left },
        Edge { x: 0, y: 1, direction: Direction::Up },
        Edge { x: 0, y: 0, direction: Direction::Right },
    ];
    assert_eq!(contour_points(&edges), vec![(2, 0), (2, 1), (0, 1), (0, 0)]);
    // one edge alone stays as it is
    let one = vec![Edge { x: 5, y: 6, direction: Direction::Up }];
    assert_eq!(contour_points(&one), vec![(5, 6)]);
}
