use register_core::Paper;

#[test]
fn b5_at_400_dpi_is_2866_by_4047() {
    let canvas = Paper::B5.canvas_at_dpi(400);
    assert_eq!(canvas.width, 2866);
    assert_eq!(canvas.height, 4047);
    assert_eq!(canvas.dpi, 400);
}

#[test]
fn b5_at_300_dpi_rounds_to_nearest() {
    let canvas = Paper::B5.canvas_at_dpi(300);
    assert_eq!(canvas.width, 2150);
    assert_eq!(canvas.height, 3035);
}

#[test]
fn canvas_matches_float_rounding_over_many_dpis() {
    for dpi in (0..5000u32).chain([65_535, 1_000_000, 123_456_789]) {
        let canvas = Paper::B5.canvas_at_dpi(dpi);
        let scale = f64::from(dpi) / 25.4;
        let w = (182.0 * scale).round() as u32;
        let h = (257.0 * scale).round() as u32;
        assert_eq!((canvas.width, canvas.height), (w, h), "dpi {dpi}");
    }
}

#[test]
fn canvas_saturates_at_u32_max() {
    let canvas = Paper::B5.canvas_at_dpi(u32::MAX);
    assert_eq!(canvas.width, u32::MAX);
    assert_eq!(canvas.height, u32::MAX);
    assert_eq!(Paper::B5.canvas_at_dpi(50).width, 358);
    assert_eq!(Paper::B5.canvas_at_dpi(50).height, 506);
}
