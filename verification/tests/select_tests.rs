use string_art::Point;
use string_art::circle_coords;
use string_art::get_line_id;
use string_art::map_of_lines;
use string_art::select::Config;
use string_art::select::ConfigError;
use string_art::select::RunError;
use string_art::select::score_line;
use string_art::select::select_path;

#[test]
fn config_accepts_valid_parameters() {
    let cfg = Config::new(400, 2499, 235, 20, 51).unwrap();
    assert_eq!(cfg.image_size, 400);
    assert_eq!(cfg.wraps, 2499);
    assert_eq!(cfg.circle_points, 235);
    assert_eq!(cfg.minimum_difference, 20);
    assert_eq!(cfg.brightness_factor, 51);
}

#[test]
fn config_rejects_zero_image_size() {
    assert_eq!(Config::new(0, 10, 10, 1, 1), Err(ConfigError::ZeroImageSize));
}

#[test]
fn config_rejects_zero_wraps() {
    assert_eq!(Config::new(10, 0, 10, 1, 1), Err(ConfigError::ZeroWraps));
}

#[test]
fn config_rejects_too_few_circle_points() {
    assert_eq!(Config::new(10, 10, 2, 1, 1), Err(ConfigError::TooFewCirclePoints));
}

#[test]
fn config_rejects_zero_minimum_difference() {
    assert_eq!(Config::new(10, 10, 10, 0, 1), Err(ConfigError::ZeroMinimumDifference));
}

#[test]
fn config_rejects_half_ring_minimum_difference() {
    assert_eq!(Config::new(10, 1, 10, 5, 1), Err(ConfigError::MinimumDifferenceTooLarge));
    assert_eq!(Config::new(10, 1, 10, 6, 1), Err(ConfigError::MinimumDifferenceTooLarge));
    assert!(Config::new(10, 1, 10, 4, 1).is_ok());
}

#[test]
fn config_rejects_zero_brightness_factor() {
    assert_eq!(Config::new(10, 10, 10, 1, 0), Err(ConfigError::ZeroBrightnessFactor));
}

#[test]
fn score_is_average_remaining_potential() {
    // Two pixels: weight starts at 2 * 255 = 510, charges 100 then 200,
    // leaving 210; the average over the two pixels is 105.
    let seg = vec![Point { x: 0, y: 0 }, Point { x: 1, y: 1 }];
    let buf = vec![100u8, 0, 0, 200];
    assert_eq!(score_line(&seg, &buf, 2), 105);
}

#[test]
fn score_floors_at_zero() {
    // An all-white chord scores zero: 2 * 255 - 255 - 255 = 0.
    let seg = vec![Point { x: 0, y: 0 }, Point { x: 1, y: 0 }];
    let buf = vec![255u8, 255, 255, 255];
    assert_eq!(score_line(&seg, &buf, 2), 0);
}

#[test]
fn all_white_input_picks_first_eligible() {
    // Every candidate scores zero, so the first eligible peg wins each wrap.
    let cfg = Config::new(10, 2, 4, 1, 50).unwrap();
    let coords = circle_coords(10, 4);
    let table = map_of_lines(&coords);
    let mut working = vec![255u8; 100];
    let path = select_path(&cfg, &mut working, &coords, &table).unwrap();
    assert_eq!(path, vec![0, 1, 2]);
    assert_ne!(get_line_id(path[0], path[1]), get_line_id(path[1], path[2]));
    // Saturated pixels stay at the maximum.
    assert!(working.iter().all(|&v| v == 255));
}

#[test]
fn all_black_input_picks_first_eligible() {
    // Every candidate scores 255 on the first wrap, a full tie: the first
    // eligible peg wins, and the chosen chord brightens the working buffer.
    let cfg = Config::new(10, 1, 4, 1, 50).unwrap();
    let coords = circle_coords(10, 4);
    let table = map_of_lines(&coords);
    let mut working = vec![0u8; 100];
    let path = select_path(&cfg, &mut working, &coords, &table).unwrap();
    assert_eq!(path, vec![0, 1]);
    // Peg 0 sits at (9, 5); the chord to peg 1 was brightened by 50 there.
    assert_eq!(working[5 * 10 + 9], 50);
    // A pixel no chord passes through keeps its input value.
    assert_eq!(working[0], 0);
}

#[test]
fn brightening_shifts_later_choices() {
    // After the first chord is committed, its pixels count against later
    // candidates: from peg 1 the longer chord to peg 3 dilutes the shared
    // brightened pixel more than the chord to peg 2, so peg 3 wins.
    let cfg = Config::new(10, 2, 4, 1, 50).unwrap();
    let coords = circle_coords(10, 4);
    let table = map_of_lines(&coords);
    let mut working = vec![0u8; 100];
    let path = select_path(&cfg, &mut working, &coords, &table).unwrap();
    assert_eq!(path, vec![0, 1, 3]);
}

#[test]
fn path_length_and_start() {
    let cfg = Config::new(10, 5, 4, 1, 50).unwrap();
    let coords = circle_coords(10, 4);
    let table = map_of_lines(&coords);
    let mut working = vec![0u8; 100];
    let path = select_path(&cfg, &mut working, &coords, &table).unwrap();
    assert_eq!(path.len(), 6);
    assert_eq!(path[0], 0);
    for i in 1..path.len() {
        assert_ne!(path[i], path[i - 1]);
    }
    // No chord is used twice.
    let mut ids = Vec::new();
    for i in 1..path.len() {
        let id = get_line_id(path[i - 1], path[i]);
        assert!(!ids.contains(&id));
        ids.push(id);
    }
}

#[test]
fn selector_fails_when_no_chord_is_left() {
    // From some peg every eligible chord is eventually used up.
    let cfg = Config::new(10, 6, 4, 1, 50).unwrap();
    let coords = circle_coords(10, 4);
    let table = map_of_lines(&coords);
    let mut working = vec![0u8; 100];
    let r = select_path(&cfg, &mut working, &coords, &table);
    assert_eq!(r, Err(RunError::NoEligibleCandidate));
}

#[test]
fn minimum_difference_excludes_near_pegs() {
    // With 8 pegs and a minimum difference of 3, only pegs at circular
    // distance 3 or 4 are eligible; from peg 0 the first is peg 3.
    let cfg = Config::new(16, 1, 8, 3, 50).unwrap();
    let coords = circle_coords(16, 8);
    let table = map_of_lines(&coords);
    let mut working = vec![0u8; 256];
    let path = select_path(&cfg, &mut working, &coords, &table).unwrap();
    assert_eq!(path, vec![0, 3]);
}
