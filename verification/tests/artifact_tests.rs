use string_art::path_text;

#[test]
fn artifact_lists_count_then_path() {
    let path: Vec<u16> = vec![0, 1, 2];
    let text = path_text(4, &path);
    assert_eq!(text, b"4\n0,1,2,".to_vec());
}

#[test]
fn artifact_of_empty_path_is_count_only() {
    let path: Vec<u16> = vec![];
    let text = path_text(235, &path);
    assert_eq!(text, b"235\n".to_vec());
}

#[test]
fn artifact_renders_multi_digit_pegs() {
    let path: Vec<u16> = vec![0, 117, 23, 200];
    let text = path_text(235, &path);
    assert_eq!(text, b"235\n0,117,23,200,".to_vec());
}
