use string_art::generate;
use string_art::get_line_id;
use string_art::select::Config;
use string_art::select::RunError;

#[test]
fn white_scenario_end_to_end() {
    // All-white input: every score is zero, the tie-break picks the lowest
    // eligible peg each wrap, and the path has length three with two
    // distinct chords.
    let cfg = Config::new(10, 2, 4, 1, 50).unwrap();
    let out = generate(&cfg, vec![255u8; 100]).unwrap();
    assert_eq!(out.path, vec![0, 1, 2]);
    assert_eq!(out.path.len(), 3);
    assert_ne!(
        get_line_id(out.path[0], out.path[1]),
        get_line_id(out.path[1], out.path[2]),
    );
    assert_eq!(out.preview.len(), 100);
}

#[test]
fn black_scenario_end_to_end() {
    // Uniformly black input: every candidate scores 255, a full tie, so
    // the first eligible candidate wins deterministically.
    let cfg = Config::new(10, 1, 4, 1, 50).unwrap();
    let out = generate(&cfg, vec![0u8; 100]).unwrap();
    assert_eq!(out.path, vec![0, 1]);
    // The preview darkens the chosen chord from white.
    assert_eq!(out.preview[5 * 10 + 9], 235);
    assert_eq!(out.preview[0], 255);
}

#[test]
fn wrong_input_size_is_rejected() {
    let cfg = Config::new(10, 2, 4, 1, 50).unwrap();
    let r = generate(&cfg, vec![0u8; 99]);
    assert!(matches!(r, Err(RunError::WrongImageSize)));
}

#[test]
fn exhausted_chords_are_reported() {
    let cfg = Config::new(10, 6, 4, 1, 50).unwrap();
    let r = generate(&cfg, vec![0u8; 100]);
    assert!(matches!(r, Err(RunError::NoEligibleCandidate)));
}

#[test]
fn larger_run_satisfies_path_shape() {
    let cfg = Config::new(60, 40, 24, 5, 40).unwrap();
    let mut pixels = vec![128u8; 3600];
    for y in 10..50 {
        for x in 10..50 {
            pixels[y * 60 + x] = 10;
        }
    }
    let out = generate(&cfg, pixels).unwrap();
    assert_eq!(out.path.len(), 41);
    assert_eq!(out.path[0], 0);
    let mut ids = Vec::new();
    for i in 1..out.path.len() {
        assert_ne!(out.path[i], out.path[i - 1]);
        let a = out.path[i - 1] as i32;
        let b = out.path[i] as i32;
        let d = (a - b).abs();
        let circ = d.min(24 - d);
        assert!(circ >= 5);
        let id = get_line_id(out.path[i - 1], out.path[i]);
        assert!(!ids.contains(&id));
        ids.push(id);
    }
    for &v in &out.preview {
        assert!(v <= 255);
    }
}
