use string_art::circle_coords;
use string_art::map_of_lines;
use string_art::render::render;

#[test]
fn render_darkens_along_the_path() {
    let coords = circle_coords(10, 4);
    let table = map_of_lines(&coords);
    let path: Vec<u16> = vec![0, 1];
    let out = render(&path, &table, &coords, 10);
    assert_eq!(out.len(), 100);
    // Peg 0 sits at (9, 5): on the chord, darkened by 20 from white.
    assert_eq!(out[5 * 10 + 9], 235);
    // Peg 1 sits at (5, 9).
    assert_eq!(out[9 * 10 + 5], 235);
    // A pixel off the path stays white.
    assert_eq!(out[0], 255);
}

#[test]
fn render_accumulates_overlap() {
    let coords = circle_coords(10, 4);
    let table = map_of_lines(&coords);
    // The same chord replayed twice darkens its pixels twice.
    let path: Vec<u16> = vec![0, 1, 0];
    let out = render(&path, &table, &coords, 10);
    assert_eq!(out[5 * 10 + 9], 215);
    assert_eq!(out[0], 255);
}

#[test]
fn render_trivial_path_is_all_white() {
    let coords = circle_coords(10, 4);
    let table = map_of_lines(&coords);
    let path: Vec<u16> = vec![0];
    let out = render(&path, &table, &coords, 10);
    assert_eq!(out.len(), 100);
    assert!(out.iter().all(|&v| v == 255));
}

#[test]
fn render_values_stay_in_range() {
    let coords = circle_coords(12, 6);
    let table = map_of_lines(&coords);
    let path: Vec<u16> = vec![0, 2, 4, 0, 3, 1, 4];
    let out = render(&path, &table, &coords, 12);
    assert_eq!(out.len(), 144);
    for &v in &out {
        assert!(v <= 255);
        assert!(v >= 255 - 7 * 20);
    }
}
