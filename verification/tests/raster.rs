use std::path::PathBuf;

use imageproc::geometric_transformations::Projection;
use register_core::page::into_analyzed;
use register_core::test_only::raw_from_bits;
use register_core::{
    render, render_into, AlignmentKind, AlignmentPlan, BitPage, BoundingBox, CanvasBuf,
    PageLayout, Parity, TargetCanvas,
};

fn make_white(width: u32, height: u32) -> BitPage {
    BitPage::new_white(width, height)
}

fn set_pixel(bp: &mut BitPage, x: u32, y: u32) {
    let stride = bp.stride();
    let row = bp.bytes_mut();
    row[y as usize * stride + (x as usize / 8)] |= 1 << (7 - (x % 8));
}

fn get_pixel(bp: &BitPage, x: u32, y: u32) -> u8 {
    let stride = bp.stride();
    let byte = bp.bytes()[y as usize * stride + (x as usize / 8)];
    (byte >> (7 - (x % 8))) & 1
}

fn count_black(bp: &BitPage) -> u32 {
    bp.bytes().iter().map(|b| b.count_ones()).sum()
}

fn one_dot_plan(x: u32, y: u32, kind: AlignmentKind) -> AlignmentPlan {
    let mut bits = make_white(16, 16);
    set_pixel(&mut bits, x, y);
    let raw = raw_from_bits(bits, PathBuf::from("p.pbm"), 0);
    let layout = PageLayout {
        main_column: BoundingBox {
            x,
            y,
            width: 1,
            height: 1,
        },
        pillars: Vec::new(),
    };
    let analyzed = into_analyzed(raw, layout, Parity::Recto);
    AlignmentPlan::Aligned { analyzed, kind }
}

fn canvas32() -> TargetCanvas {
    TargetCanvas {
        width: 32,
        height: 32,
        dpi: 100,
    }
}

#[test]
fn passthrough_centers_smaller_source_on_canvas() {
    let mut bits = make_white(8, 8);
    set_pixel(&mut bits, 0, 0);
    let raw = raw_from_bits(bits, PathBuf::from("p.pbm"), 0);
    let canvas = canvas32();
    let plan = AlignmentPlan::Passthrough { raw };
    let registered = render(plan, canvas);
    assert_eq!(registered.bits().width(), 32);
    assert_eq!(registered.bits().height(), 32);
    assert_eq!(get_pixel(registered.bits(), 8, 12), 1);
}

#[test]
fn aligned_translate_lands_on_target_pixel() {
    let plan = one_dot_plan(0, 0, AlignmentKind::Translate { dx: 8, dy: 5 });
    let registered = render(plan, canvas32());
    assert_eq!(get_pixel(registered.bits(), 8, 5), 1);
}

#[test]
fn render_into_reuses_canvas_buf() {
    let canvas = canvas32();
    let mut buf = CanvasBuf::new(canvas);
    let plan = one_dot_plan(0, 0, AlignmentKind::Translate { dx: 8, dy: 5 });
    render_into(plan, canvas, &mut buf);
    assert_eq!(get_pixel(buf.bits(), 8, 5), 1);
}

#[test]
fn aligned_affine_falls_through_to_warp() {
    let projection = Projection::translate(10.0, 10.0);
    let plan = one_dot_plan(5, 5, AlignmentKind::Affine(projection));
    let registered = render(plan, canvas32());
    assert_eq!(get_pixel(registered.bits(), 15, 15), 1);
}

#[test]
fn render_into_clears_the_previous_page() {
    let canvas = canvas32();
    let mut buf = CanvasBuf::new(canvas);
    render_into(
        one_dot_plan(0, 0, AlignmentKind::Translate { dx: 8, dy: 5 }),
        canvas,
        &mut buf,
    );
    render_into(
        one_dot_plan(0, 0, AlignmentKind::Translate { dx: 16, dy: 9 }),
        canvas,
        &mut buf,
    );
    assert_eq!(get_pixel(buf.bits(), 8, 5), 0);
    assert_eq!(get_pixel(buf.bits(), 16, 9), 1);
    assert_eq!(count_black(buf.bits()), 1);
}

#[test]
fn unaligned_dx_rounds_down_to_a_byte() {
    // dx = 3 rounds down to 0, dx = -3 rounds down to -8.
    let registered = render(
        one_dot_plan(9, 0, AlignmentKind::Translate { dx: 3, dy: 0 }),
        canvas32(),
    );
    assert_eq!(get_pixel(registered.bits(), 9, 0), 1);
    let registered = render(
        one_dot_plan(9, 0, AlignmentKind::Translate { dx: -3, dy: 0 }),
        canvas32(),
    );
    assert_eq!(get_pixel(registered.bits(), 1, 0), 1);
    assert_eq!(count_black(registered.bits()), 1);
}

#[test]
fn ink_shifted_off_canvas_is_dropped() {
    let registered = render(
        one_dot_plan(0, 0, AlignmentKind::Translate { dx: -8, dy: -1 }),
        canvas32(),
    );
    assert_eq!(count_black(registered.bits()), 0);
    let registered = render(
        one_dot_plan(0, 15, AlignmentKind::Translate { dx: 0, dy: 17 }),
        canvas32(),
    );
    assert_eq!(count_black(registered.bits()), 0);
}

#[test]
fn passthrough_of_larger_page_is_clipped_and_centered() {
    let mut bits = make_white(48, 40);
    set_pixel(&mut bits, 8, 4);
    set_pixel(&mut bits, 47, 39);
    let raw = raw_from_bits(bits, PathBuf::from("big.pbm"), 3);
    let registered = render(AlignmentPlan::Passthrough { raw }, canvas32());
    // dx = floor8((32 - 48) / 2) = -8, dy = (32 - 40) / 2 = -4.
    assert_eq!(get_pixel(registered.bits(), 0, 0), 1);
    assert_eq!(count_black(registered.bits()), 1);
    assert_eq!(registered.source(), &PathBuf::from("big.pbm"));
}

#[test]
fn affine_of_blank_page_stays_blank() {
    let raw = raw_from_bits(make_white(16, 16), PathBuf::from("p.pbm"), 0);
    let layout = PageLayout {
        main_column: BoundingBox {
            x: 0,
            y: 0,
            width: 1,
            height: 1,
        },
        pillars: Vec::new(),
    };
    let analyzed = into_analyzed(raw, layout, Parity::Verso);
    let plan = AlignmentPlan::Aligned {
        analyzed,
        kind: AlignmentKind::Affine(Projection::scale(2.0, 2.0)),
    };
    let registered = render(plan, canvas32());
    assert_eq!(count_black(registered.bits()), 0);
}

#[test]
fn canvas_buf_starts_white_with_canvas_size() {
    let buf = CanvasBuf::new(TargetCanvas {
        width: 13,
        height: 3,
        dpi: 72,
    });
    assert_eq!(buf.bits().width(), 13);
    assert_eq!(buf.bits().height(), 3);
    assert_eq!(buf.bits().stride(), 2);
    assert_eq!(buf.bits().bytes(), &[0u8; 6][..]);
}

#[test]
fn translate_keeps_canvas_padding_clear() {
    let mut bits = make_white(16, 16);
    for y in 0..16 {
        for x in 0..16 {
            set_pixel(&mut bits, x, y);
        }
    }
    let raw = raw_from_bits(bits, PathBuf::from("p.pbm"), 0);
    let layout = PageLayout {
        main_column: BoundingBox {
            x: 0,
            y: 0,
            width: 16,
            height: 16,
        },
        pillars: Vec::new(),
    };
    let plan = AlignmentPlan::Aligned {
        analyzed: into_analyzed(raw, layout, Parity::Recto),
        kind: AlignmentKind::Translate { dx: 0, dy: 0 },
    };
    let canvas = TargetCanvas {
        width: 13,
        height: 4,
        dpi: 100,
    };
    let out = render(plan, canvas);
    // Each canvas row is 2 bytes; pixels 8..13 of a row are the second
    // byte's top 5 bits, which the byte-exact copy stops short of.
    assert_eq!(out.bits().bytes(), &[0xff, 0x00, 0xff, 0x00, 0xff, 0x00, 0xff, 0x00]);
}

#[test]
fn render_and_render_into_a_used_buffer_agree() {
    let kind = AlignmentKind::Translate { dx: 8, dy: 3 };
    let fresh = render(one_dot_plan(2, 5, kind.clone()), canvas32());
    let mut buf = CanvasBuf::new(canvas32());
    render_into(one_dot_plan(9, 9, AlignmentKind::Translate { dx: 0, dy: 0 }), canvas32(), &mut buf);
    render_into(one_dot_plan(2, 5, kind), canvas32(), &mut buf);
    assert_eq!(buf.bits().bytes(), fresh.bits().bytes());
    assert_eq!(get_pixel(buf.bits(), 10, 8), 1);
    assert_eq!(count_black(buf.bits()), 1);
}
