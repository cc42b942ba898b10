use string_art::circle_coords;
use string_art::constrain;

#[test]
fn constrain_caps_at_max() {
    assert_eq!(constrain(5, 9), 5);
    assert_eq!(constrain(12, 9), 9);
    assert_eq!(constrain(9, 9), 9);
}

#[test]
fn four_pegs_on_ten_pixel_circle() {
    let coords = circle_coords(10, 4);
    assert_eq!(coords.len(), 4);
    // The four cardinal points of the inscribed circle, clamped to the image.
    assert_eq!((coords[0].x, coords[0].y), (9, 5));
    assert_eq!((coords[1].x, coords[1].y), (5, 9));
    assert_eq!((coords[2].x, coords[2].y), (0, 5));
    assert_eq!((coords[3].x, coords[3].y), (5, 0));
}

#[test]
fn ring_count_and_bounds() {
    let size = 400;
    let n = 200;
    let coords = circle_coords(size, n);
    assert_eq!(coords.len(), n);
    for p in &coords {
        assert!((p.x as usize) < size);
        assert!((p.y as usize) < size);
    }
}

#[test]
fn three_pegs_smallest_ring() {
    let coords = circle_coords(1, 3);
    assert_eq!(coords.len(), 3);
    for p in &coords {
        assert_eq!(p.x, 0);
        assert_eq!(p.y, 0);
    }
}
