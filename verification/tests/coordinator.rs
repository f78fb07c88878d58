use register_core::coordinator::{compute_reference_or_fallback, reference_threshold, Coordinator};
use register_core::{BoundingBox, Parity, TargetCanvas};

fn canvas() -> TargetCanvas {
    TargetCanvas {
        width: 100,
        height: 80,
        dpi: 50,
    }
}

fn snap(w: u32) -> (Parity, BoundingBox) {
    (
        Parity::Recto,
        BoundingBox {
            x: 0,
            y: 0,
            width: w,
            height: 10,
        },
    )
}

#[test]
fn reference_commits_at_threshold_and_never_changes() {
    let mut c = Coordinator::new(2, canvas());
    assert!(!c.submit(Some(snap(20))).unwrap());
    assert!(c.reference().is_none());
    assert!(!c.submit(None).unwrap());
    assert!(c.submit(Some(snap(40))).unwrap());
    let committed = c.reference().expect("committed");
    assert_eq!(committed.recto.width, 30);
    assert!(!c.submit(Some(snap(90))).unwrap());
    assert!(!c.kick_if_short_corpus(4));
    assert_eq!(c.reference(), Some(committed));
}

#[test]
fn last_page_commits_a_short_corpus() {
    let mut c = Coordinator::new(8, canvas());
    assert!(!c.kick_if_short_corpus(2));
    assert!(!c.submit(Some(snap(20))).unwrap());
    assert!(c.submit(None).unwrap());
    assert_eq!(c.reference().unwrap().recto.width, 20);
}

#[test]
fn kick_commits_once_every_page_is_in() {
    let mut c = Coordinator::new(8, canvas());
    assert!(!c.submit(None).unwrap());
    assert!(c.kick_if_short_corpus(1));
    let r = c.reference().unwrap();
    assert_eq!(
        r.recto,
        BoundingBox {
            x: 50,
            y: 40,
            width: 0,
            height: 0
        }
    );
    assert_eq!(r.verso, r.recto);
}

#[test]
fn fallback_reference_is_a_centered_empty_box() {
    let r = compute_reference_or_fallback(&[], canvas()).unwrap();
    assert_eq!((r.recto.x, r.recto.y, r.recto.width, r.recto.height), (50, 40, 0, 0));
    let r = compute_reference_or_fallback(&[snap(20)], canvas()).unwrap();
    assert_eq!((r.recto.x, r.recto.width), (40, 20));
}

#[test]
fn threshold_is_capped_by_workers_and_pages() {
    assert_eq!(reference_threshold(4, 100), 4);
    assert_eq!(reference_threshold(16, 100), 16);
    assert_eq!(reference_threshold(16, 5), 5);
    assert_eq!(reference_threshold(4, 0), 1);
    assert_eq!(reference_threshold(0, 10), 0);
}

#[test]
fn reference_uses_the_first_threshold_snapshots_in_any_order_of_kick() {
    for kick_at in 0..=4 {
        let mut c = Coordinator::new(3, canvas());
        let widths = [10, 20, 30, 90];
        for (i, w) in widths.iter().enumerate() {
            if i == kick_at {
                c.kick_if_short_corpus(4);
            }
            c.submit(Some(snap(*w))).unwrap();
        }
        if kick_at == 4 {
            c.kick_if_short_corpus(4);
        }
        assert_eq!(c.reference().unwrap().recto.width, 20, "kick_at={kick_at}");
    }
}

#[test]
fn blank_corpus_still_gets_a_reference() {
    let mut c = Coordinator::new(2, canvas());
    assert!(!c.submit(None).unwrap());
    assert!(!c.submit(None).unwrap());
    assert!(c.kick_if_short_corpus(2));
    assert_eq!(c.reference().unwrap().recto.width, 0);
    let mut c = Coordinator::new(2, canvas());
    assert!(c.kick_if_short_corpus(0));
    assert!(c.reference().is_some());
}
