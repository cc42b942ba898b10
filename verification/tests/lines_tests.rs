use string_art::bresenham;
use string_art::circle_coords;
use string_art::get_line_id;
use string_art::map_of_lines;

#[test]
fn line_id_is_symmetric() {
    let a = get_line_id(3, 7);
    let b = get_line_id(7, 3);
    assert_eq!(a, b);
    assert_eq!(a.start, 3);
    assert_eq!(a.end, 7);
}

#[test]
fn line_ids_of_distinct_pairs_differ() {
    assert_ne!(get_line_id(2, 5), get_line_id(2, 6));
    assert_ne!(get_line_id(5, 2), get_line_id(2, 6));
    assert_ne!(get_line_id(0, 1), get_line_id(1, 2));
}

#[test]
fn bresenham_horizontal() {
    let line = bresenham(2, 2, 7, 2);
    let expected: Vec<(u16, u16)> = vec![(2, 2), (3, 2), (4, 2), (5, 2), (6, 2), (7, 2)];
    let got: Vec<(u16, u16)> = line.iter().map(|p| (p.x, p.y)).collect();
    assert_eq!(got, expected);
}

#[test]
fn bresenham_diagonal() {
    let line = bresenham(0, 0, 3, 3);
    let got: Vec<(u16, u16)> = line.iter().map(|p| (p.x, p.y)).collect();
    assert_eq!(got, vec![(0, 0), (1, 1), (2, 2), (3, 3)]);
}

#[test]
fn bresenham_shallow_slope() {
    let line = bresenham(0, 0, 2, 1);
    let got: Vec<(u16, u16)> = line.iter().map(|p| (p.x, p.y)).collect();
    assert_eq!(got, vec![(0, 0), (1, 0), (2, 1)]);
}

#[test]
fn bresenham_single_point() {
    let line = bresenham(4, 4, 4, 4);
    assert_eq!(line.len(), 1);
    assert_eq!((line[0].x, line[0].y), (4, 4));
}

#[test]
fn bresenham_endpoints_and_box() {
    let line = bresenham(9, 5, 5, 9);
    assert_eq!((line[0].x, line[0].y), (9, 5));
    let last = &line[line.len() - 1];
    assert_eq!((last.x, last.y), (5, 9));
    for p in &line {
        assert!(5 <= p.x && p.x <= 9);
        assert!(5 <= p.y && p.y <= 9);
    }
}

#[test]
fn table_covers_all_pairs() {
    let coords = circle_coords(10, 4);
    let table = map_of_lines(&coords);
    assert_eq!(table.n, 4);
    // 4 pegs give 4 * 3 / 2 = 6 unordered pairs.
    assert_eq!(table.segments.len(), 6);
}

#[test]
fn table_segments_connect_their_pegs() {
    let coords = circle_coords(10, 4);
    let table = map_of_lines(&coords);
    for a in 0..4u16 {
        for b in (a + 1)..4u16 {
            let seg = table.get(get_line_id(a, b));
            assert!(seg.len() >= 1);
            assert_eq!(seg[0], coords[a as usize]);
            assert_eq!(seg[seg.len() - 1], coords[b as usize]);
        }
    }
}

#[test]
fn lookup_same_identifier_twice_is_identical() {
    let coords = circle_coords(10, 4);
    let table = map_of_lines(&coords);
    let id = get_line_id(0, 2);
    let first = table.get(id).clone();
    let second = table.get(id).clone();
    assert_eq!(first, second);
}

#[test]
fn lookup_does_not_depend_on_pair_order() {
    let coords = circle_coords(10, 4);
    let table = map_of_lines(&coords);
    let one = table.get(get_line_id(1, 3)).clone();
    let other = table.get(get_line_id(3, 1)).clone();
    assert_eq!(one, other);
}

#[test]
fn axis_aligned_rasters_agree_as_sets() {
    let fwd = bresenham(2, 2, 7, 2);
    let rev = bresenham(7, 2, 2, 2);
    let mut f: Vec<(u16, u16)> = fwd.iter().map(|p| (p.x, p.y)).collect();
    let mut r: Vec<(u16, u16)> = rev.iter().map(|p| (p.x, p.y)).collect();
    f.sort();
    r.sort();
    assert_eq!(f, r);

    let up = bresenham(3, 1, 3, 6);
    let down = bresenham(3, 6, 3, 1);
    let mut u: Vec<(u16, u16)> = up.iter().map(|p| (p.x, p.y)).collect();
    let mut d: Vec<(u16, u16)> = down.iter().map(|p| (p.x, p.y)).collect();
    u.sort();
    d.sort();
    assert_eq!(u, d);
}
