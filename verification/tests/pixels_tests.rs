use codemap::pixels::{padded_row, unpad, unpad_bgra};

#[test]
fn padded_row_rounds_up_to_256() {
    assert_eq!(padded_row(1), 256);
    assert_eq!(padded_row(64), 256);
    assert_eq!(padded_row(65), 512);
    assert_eq!(padded_row(0), 0);
    assert_eq!(padded_row(1920), 7680);
}

#[test]
fn unpad_drops_row_padding() {
    // two rows of one pixel, each row padded to 8 bytes
    let data: Vec<u8> = vec![1, 2, 3, 4, 9, 9, 9, 9, 5, 6, 7, 8, 9, 9, 9, 9];
    assert_eq!(unpad(&data, 1, 2, 8), vec![1, 2, 3, 4, 5, 6, 7, 8]);
}

#[test]
fn unpad_ignores_trailing_bytes() {
    let data: Vec<u8> = vec![1, 2, 3, 4, 0, 0, 0, 0, 7, 7];
    assert_eq!(unpad(&data, 1, 1, 8), vec![1, 2, 3, 4]);
    assert_eq!(unpad(&data, 0, 2, 4), Vec::<u8>::new());
}

#[test]
fn unpad_bgra_swaps_red_and_blue() {
    let data: Vec<u8> = vec![10, 20, 30, 40, 50, 60, 70, 80, 0, 0, 11, 12, 13, 14, 15, 16, 17, 18, 0, 0];
    assert_eq!(
        unpad_bgra(&data, 2, 2, 10),
        vec![30, 20, 10, 40, 70, 60, 50, 80, 13, 12, 11, 14, 17, 16, 15, 18]
    );
}
