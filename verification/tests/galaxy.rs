use space_game::galaxy::strip_to_layers;

#[test]
fn strip_faces_become_layers() {
    // Two rows of six faces, each two pixels wide.
    let strip: Vec<u32> = (0..24).collect();
    let layers = strip_to_layers(&strip, 2, 2);
    assert_eq!(
        layers,
        vec![0, 1, 12, 13, 2, 3, 14, 15, 4, 5, 16, 17, 6, 7, 18, 19, 8, 9, 20, 21, 10, 11, 22, 23]
    );
}

#[test]
fn one_row_strip_keeps_its_order() {
    let strip: Vec<char> = "abcdef".chars().collect();
    assert_eq!(strip_to_layers(&strip, 1, 1), strip);
}

#[test]
fn empty_faces_give_no_pixels() {
    let strip: Vec<u8> = vec![1, 2, 3];
    assert!(strip_to_layers(&strip, 0, 5).is_empty());
}
