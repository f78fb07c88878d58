use std::path::PathBuf;

use register_core::page::into_analyzed;
use register_core::test_only::raw_from_bits;
use register_core::{
    plan_alignment, plan_passthrough, AlignmentKind, AlignmentPlan, AnalyzedPage, BitPage,
    BoundingBox, PageLayout, Parity, PlanOptions, ReferenceLayout, TargetCanvas,
};

fn make_ref(w: u32, h: u32, bbox: BoundingBox) -> ReferenceLayout {
    ReferenceLayout {
        canvas: TargetCanvas {
            width: w,
            height: h,
            dpi: 100,
        },
        recto: bbox,
        verso: bbox,
    }
}

fn analyzed_page(main_column: BoundingBox) -> AnalyzedPage {
    let raw = raw_from_bits(BitPage::new_white(50, 50), PathBuf::from("p.pbm"), 0);
    let layout = PageLayout {
        main_column,
        pillars: Vec::new(),
    };
    into_analyzed(raw, layout, Parity::Recto)
}

fn translation(plan: AlignmentPlan) -> (i32, i32) {
    let AlignmentPlan::Aligned {
        kind: AlignmentKind::Translate { dx, dy },
        ..
    } = plan
    else {
        panic!("expected Aligned/Translate");
    };
    (dx, dy)
}

#[test]
fn translation_anchors_on_top_right_corner() {
    let analyzed = analyzed_page(BoundingBox {
        x: 10,
        y: 10,
        width: 20,
        height: 30,
    });
    let reference = make_ref(
        100,
        100,
        BoundingBox {
            x: 40,
            y: 35,
            width: 20,
            height: 30,
        },
    );

    let plan = plan_alignment(analyzed, &reference, PlanOptions::default());
    let (dx, dy) = translation(plan);

    assert_eq!(dy, 25);
    assert_eq!(dx % 8, 0);
    assert!(
        (24..=32).contains(&dx),
        "dx={dx} should be near 30, byte-aligned"
    );
}

#[test]
fn small_outlier_bbox_falls_through_to_passthrough() {
    let analyzed = analyzed_page(BoundingBox {
        x: 80,
        y: 100,
        width: 20,
        height: 100,
    });
    let reference = make_ref(
        200,
        200,
        BoundingBox {
            x: 5,
            y: 5,
            width: 100,
            height: 100,
        },
    );
    let plan = plan_alignment(analyzed, &reference, PlanOptions::default());
    assert!(
        matches!(plan, AlignmentPlan::Passthrough { .. }),
        "outlier bbox should passthrough; got {plan:?}",
    );
}

#[test]
fn end_of_chapter_short_page_still_aligns_when_width_matches() {
    let analyzed = analyzed_page(BoundingBox {
        x: 5,
        y: 5,
        width: 100,
        height: 70,
    });
    let reference = make_ref(
        200,
        200,
        BoundingBox {
            x: 5,
            y: 5,
            width: 100,
            height: 100,
        },
    );
    let plan = plan_alignment(analyzed, &reference, PlanOptions::default());
    assert_eq!(translation(plan), (0, 0));
}

#[test]
fn horizontal_offset_rounds_to_nearest_multiple_of_eight_halves_toward_zero() {
    let target = BoundingBox {
        x: 100,
        y: 50,
        width: 40,
        height: 40,
    };
    // Raw horizontal offsets 4, 3, -4, -3, 12, 11, 5, -5, 20: halves go toward
    // zero, so they round to 0, 0, 0, 0, 8, 8, 8, -8, 16.
    for (src_x, expected) in [
        (96, 0),
        (97, 0),
        (104, 0),
        (103, 0),
        (88, 8),
        (89, 8),
        (95, 8),
        (105, -8),
        (80, 16),
    ] {
        let analyzed = analyzed_page(BoundingBox {
            x: src_x,
            y: 50,
            width: 40,
            height: 40,
        });
        let plan = plan_alignment(analyzed, &make_ref(300, 300, target), PlanOptions::default());
        assert_eq!(translation(plan), (expected, 0), "src_x={src_x}");
    }
}

#[test]
fn outlier_by_height_passes_through() {
    let analyzed = analyzed_page(BoundingBox {
        x: 5,
        y: 5,
        width: 100,
        height: 49,
    });
    let reference = make_ref(
        200,
        200,
        BoundingBox {
            x: 5,
            y: 5,
            width: 100,
            height: 100,
        },
    );
    let plan = plan_alignment(analyzed, &reference, PlanOptions::default());
    assert!(matches!(plan, AlignmentPlan::Passthrough { .. }));
}

#[test]
fn half_size_is_not_an_outlier() {
    let analyzed = analyzed_page(BoundingBox {
        x: 55,
        y: 5,
        width: 50,
        height: 50,
    });
    let reference = make_ref(
        200,
        200,
        BoundingBox {
            x: 5,
            y: 5,
            width: 100,
            height: 100,
        },
    );
    let plan = plan_alignment(analyzed, &reference, PlanOptions::default());
    assert_eq!(translation(plan), (0, 0));
}

#[test]
fn plan_passthrough_keeps_the_page() {
    let raw = raw_from_bits(BitPage::new_white(9, 9), PathBuf::from("q.pbm"), 4);
    let plan = plan_passthrough(raw);
    assert_eq!(plan.source(), &PathBuf::from("q.pbm"));
    assert!(matches!(plan, AlignmentPlan::Passthrough { raw } if raw.index() == 4));
}

#[test]
fn default_options_enable_everything() {
    let o = PlanOptions::default();
    assert!(o.scale && o.skew);
}
