use std::path::PathBuf;

use register_core::page::into_analyzed;
use register_core::test_only::raw_from_bits;
use register_core::{
    derive_reference, derive_reference_from_snapshots, AnalyzedPage, BitPage, BoundingBox,
    PageLayout, Parity, RegisterError, TargetCanvas,
};

fn fake_page(index: usize, x: u32, y: u32, w: u32, h: u32) -> AnalyzedPage {
    let raw = raw_from_bits(
        BitPage::new_white(100, 100),
        PathBuf::from(format!("p{index}.pbm")),
        index,
    );
    let layout = PageLayout {
        main_column: BoundingBox {
            x,
            y,
            width: w,
            height: h,
        },
        pillars: Vec::new(),
    };
    into_analyzed(raw, layout, Parity::from_index(index))
}

fn canvas(width: u32, height: u32) -> TargetCanvas {
    TargetCanvas {
        width,
        height,
        dpi: 100,
    }
}

fn bb(x: u32, y: u32, width: u32, height: u32) -> BoundingBox {
    BoundingBox {
        x,
        y,
        width,
        height,
    }
}

#[test]
fn empty_corpus_errors() {
    let empty: [AnalyzedPage; 0] = [];
    assert!(derive_reference(&empty, canvas(100, 100)).is_err());
}

#[test]
fn median_box_is_centered_on_canvas() {
    let pages = [
        fake_page(0, 10, 10, 20, 30),
        fake_page(2, 12, 14, 20, 30),
        fake_page(4, 8, 8, 20, 30),
    ];
    let r = derive_reference(&pages, canvas(100, 100)).unwrap();
    assert_eq!(
        r.recto,
        BoundingBox {
            x: 40,
            y: 35,
            width: 20,
            height: 30
        }
    );
}

#[test]
fn verso_falls_back_to_recto_when_absent() {
    let pages = [fake_page(0, 5, 5, 10, 15), fake_page(2, 7, 7, 10, 15)];
    let r = derive_reference(&pages, canvas(50, 50)).unwrap();
    assert_eq!(r.recto.width, 10);
    assert_eq!(r.verso.width, 10);
}

#[test]
fn empty_snapshots_report_empty_corpus() {
    let r = derive_reference_from_snapshots(&[], canvas(10, 10));
    assert!(matches!(r, Err(RegisterError::EmptyCorpus)));
}

#[test]
fn median_is_per_field_and_per_parity() {
    let snaps = [
        (Parity::Recto, bb(1, 1, 10, 40)),
        (Parity::Verso, bb(0, 0, 30, 30)),
        (Parity::Recto, bb(3, 3, 30, 20)),
        (Parity::Recto, bb(2, 2, 20, 60)),
    ];
    let r = derive_reference_from_snapshots(&snaps, canvas(100, 100)).unwrap();
    // Recto widths {10, 30, 20} -> 20, heights {40, 20, 60} -> 40.
    assert_eq!(r.recto, bb(40, 30, 20, 40));
    assert_eq!(r.verso, bb(35, 35, 30, 30));
    assert_eq!(r.for_parity(Parity::Recto), r.recto);
    assert_eq!(r.for_parity(Parity::Verso), r.verso);
}

#[test]
fn even_count_median_is_midpoint_rounded_down() {
    let snaps = [
        (Parity::Recto, bb(0, 0, 10, 11)),
        (Parity::Recto, bb(0, 0, 13, 20)),
    ];
    let r = derive_reference_from_snapshots(&snaps, canvas(41, 41)).unwrap();
    // widths midpoint(10, 13) = 11, heights midpoint(11, 20) = 15.
    assert_eq!(r.recto, bb(15, 13, 11, 15));
}

#[test]
fn one_bad_scan_does_not_bend_the_reference() {
    let snaps = [
        (Parity::Recto, bb(0, 0, 20, 30)),
        (Parity::Recto, bb(0, 0, 20, 30)),
        (Parity::Recto, bb(0, 0, 900, 1)),
    ];
    let r = derive_reference_from_snapshots(&snaps, canvas(100, 100)).unwrap();
    assert_eq!((r.recto.width, r.recto.height), (20, 30));
}

#[test]
fn box_larger_than_canvas_sits_at_origin() {
    let snaps = [(Parity::Verso, bb(0, 0, 200, 10))];
    let r = derive_reference_from_snapshots(&snaps, canvas(100, 100)).unwrap();
    assert_eq!(r.verso, bb(0, 45, 200, 10));
    assert_eq!(r.recto, bb(0, 45, 200, 10));
    assert_eq!(r.canvas, canvas(100, 100));
}

#[test]
fn snapshot_order_does_not_matter() {
    let a = [
        (Parity::Recto, bb(4, 9, 11, 31)),
        (Parity::Verso, bb(5, 7, 13, 29)),
        (Parity::Recto, bb(6, 3, 12, 35)),
        (Parity::Verso, bb(1, 2, 17, 30)),
    ];
    let mut b = a;
    b.reverse();
    let ra = derive_reference_from_snapshots(&a, canvas(90, 90)).unwrap();
    let rb = derive_reference_from_snapshots(&b, canvas(90, 90)).unwrap();
    assert_eq!(ra, rb);
}
