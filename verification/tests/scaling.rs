use dicom_viewer_core::scale::{fit_frame, ScaleError};

#[test]
fn scenario_wide_source_into_square_container() {
    let fit = fit_frame(1920, 1080, 800, 800).unwrap();
    assert_eq!(fit.draw_width, 800);
    assert_eq!(fit.draw_height, 450);
    assert_eq!(fit.offset_x, 0);
    assert_eq!(fit.offset_y, 175);
}

#[test]
fn tall_source_into_square_container() {
    let fit = fit_frame(1080, 1920, 800, 800).unwrap();
    assert_eq!(fit.draw_height, 800);
    assert_eq!(fit.draw_width, 450);
    assert_eq!(fit.offset_y, 0);
    assert_eq!(fit.offset_x, 175);
}

#[test]
fn matching_ratio_fills_the_container() {
    let fit = fit_frame(400, 300, 800, 600).unwrap();
    assert_eq!(fit.draw_width, 800);
    assert_eq!(fit.draw_height, 600);
    assert_eq!(fit.offset_x, 0);
    assert_eq!(fit.offset_y, 0);
}

#[test]
fn containment_holds_across_many_dimensions() {
    let dims = [1u32, 2, 3, 7, 256, 999, 1920, 4096];
    for &sw in &dims {
        for &sh in &dims {
            for &dw in &dims {
                for &dh in &dims {
                    let fit = fit_frame(sw, sh, dw, dh).unwrap();
                    assert!(fit.draw_width <= dw);
                    assert!(fit.draw_height <= dh);
                    assert!(fit.offset_x as u64 + fit.draw_width as u64 <= dw as u64);
                    assert!(fit.offset_y as u64 + fit.draw_height as u64 <= dh as u64);
                    // One axis is flush with the container.
                    assert!(fit.draw_width == dw || fit.draw_height == dh);
                }
            }
        }
    }
}

#[test]
fn zero_source_height_is_invalid_dimensions() {
    assert!(matches!(fit_frame(100, 0, 800, 600), Err(ScaleError::InvalidDimensions)));
}

#[test]
fn zero_container_height_is_invalid_dimensions() {
    assert!(matches!(fit_frame(100, 100, 800, 0), Err(ScaleError::InvalidDimensions)));
}

#[test]
fn zero_widths_are_accepted() {
    // Only the two heights are preconditions; degenerate widths simply give a
    // zero-width placement.
    let fit = fit_frame(0, 100, 800, 600).unwrap();
    assert_eq!(fit.draw_height, 600);
    assert_eq!(fit.draw_width, 0);
}
