use dicom_viewer_core::pixels::rgb_to_rgba;

#[test]
fn widens_each_pixel_with_opaque_alpha() {
    let rgba = rgb_to_rgba(&[1, 2, 3, 4, 5, 6]);
    assert_eq!(rgba, vec![1, 2, 3, 255, 4, 5, 6, 255]);
}

#[test]
fn ignores_trailing_partial_pixel() {
    let rgba = rgb_to_rgba(&[9, 8, 7, 99]);
    assert_eq!(rgba, vec![9, 8, 7, 255]);
}

#[test]
fn empty_input_gives_empty_output() {
    assert!(rgb_to_rgba(&[]).is_empty());
}
