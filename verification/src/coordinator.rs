//! The decisions of the streaming reference coordinator.
//!
//! Workers submit the main-column snapshot of each analyzed page (or
//! nothing, for a blank page). Once `threshold` snapshots have arrived, or
//! every page of the corpus has been submitted, the per-parity reference is
//! computed from the snapshots gathered so far and committed; it never
//! changes afterwards. Locking, waiting and waking the workers belong to the
//! caller: every decision is here.

use vstd::prelude::*;

use crate::error::RegisterError;
use crate::page::{BoundingBox, Parity};
use crate::paper::TargetCanvas;
use crate::reference::{derive_reference_from_snapshots, reference_of, ReferenceLayout};

verus! {

/// The reference used when no page of the corpus has ink: a zero-sized box
/// at the canvas center for both parities, so blank pages still render.
pub open spec fn fallback_reference(canvas: TargetCanvas) -> ReferenceLayout {
    let center = BoundingBox {
        x: (canvas.width / 2) as u32,
        y: (canvas.height / 2) as u32,
        width: 0,
        height: 0,
    };
    ReferenceLayout { canvas, recto: center, verso: center }
}

/// The reference computed from the snapshots gathered so far.
pub open spec fn committed_reference(s: Seq<(Parity, BoundingBox)>, canvas: TargetCanvas) -> ReferenceLayout {
    if s.len() == 0 {
        fallback_reference(canvas)
    } else {
        reference_of(s, canvas)
    }
}

/// Derive the reference from the snapshots, or fall back to a centered
/// zero-sized reference when the whole corpus failed analysis.
pub fn compute_reference_or_fallback(
    snapshots: &[(Parity, BoundingBox)],
    canvas: TargetCanvas,
) -> (r: Result<ReferenceLayout, RegisterError>)
    ensures
        r matches Ok(l) && l == committed_reference(snapshots@, canvas),
{
    if snapshots.len() == 0 {
        let center = BoundingBox { x: canvas.width / 2, y: canvas.height / 2, width: 0, height: 0 };
        return Ok(ReferenceLayout { canvas, recto: center, verso: center });
    }
    derive_reference_from_snapshots(snapshots, canvas)
}

/// The state of a fresh coordinator.
pub open spec fn initial_state(threshold: nat, canvas: TargetCanvas) -> CoordinatorView {
    CoordinatorView {
        snapshots: Seq::empty(),
        reference: None,
        submitted: 0,
        submitted_target: None,
        threshold,
        canvas,
    }
}

/// The snapshots after a submission of `bbox`.
pub open spec fn snapshots_after(o: CoordinatorView, bbox: Option<(Parity, BoundingBox)>) -> Seq<
    (Parity, BoundingBox),
> {
    match bbox {
        Some(s) => o.snapshots.push(s),
        None => o.snapshots,
    }
}

/// Whether submitting `bbox` commits the reference: none is committed yet,
/// and either `threshold` snapshots have now arrived or this is the last
/// page (the last `usize` one while the corpus size is unknown).
pub open spec fn submit_commits(o: CoordinatorView, bbox: Option<(Parity, BoundingBox)>) -> bool {
    let last_page = match o.submitted_target {
        Some(t) => o.submitted + 1 == t,
        None => o.submitted + 1 == usize::MAX,
    };
    o.reference is None && (snapshots_after(o, bbox).len() >= o.threshold || last_page)
}

/// The state after a submission of `bbox`.
pub open spec fn after_submit(o: CoordinatorView, bbox: Option<(Parity, BoundingBox)>) -> CoordinatorView {
    CoordinatorView {
        snapshots: snapshots_after(o, bbox),
        reference: if submit_commits(o, bbox) {
            Some(committed_reference(snapshots_after(o, bbox), o.canvas))
        } else {
            o.reference
        },
        submitted: o.submitted + 1,
        submitted_target: o.submitted_target,
        threshold: o.threshold,
        canvas: o.canvas,
    }
}

/// Whether learning that the corpus has `total` pages commits the
/// reference: none is committed yet and every page has been submitted.
pub open spec fn kick_commits(o: CoordinatorView, total: nat) -> bool {
    o.reference is None && o.submitted >= total
}

/// The state after learning that the corpus has `total` pages.
pub open spec fn after_kick(o: CoordinatorView, total: nat) -> CoordinatorView {
    CoordinatorView {
        snapshots: o.snapshots,
        reference: if kick_commits(o, total) {
            Some(committed_reference(o.snapshots, o.canvas))
        } else {
            o.reference
        },
        submitted: o.submitted,
        submitted_target: Some(total),
        threshold: o.threshold,
        canvas: o.canvas,
    }
}

/// One call on a [`Coordinator`].
pub enum CoordinatorEvent {
    /// [`Coordinator::submit`] with this snapshot.
    Submit(Option<(Parity, BoundingBox)>),
    /// [`Coordinator::kick_if_short_corpus`] with this page count.
    Kick(usize),
}

/// The state after one call.
pub open spec fn after_event(o: CoordinatorView, e: CoordinatorEvent) -> CoordinatorView {
    match e {
        CoordinatorEvent::Submit(bbox) => after_submit(o, bbox),
        CoordinatorEvent::Kick(total) => after_kick(o, total as nat),
    }
}

/// The state after a sequence of calls, in order.
pub open spec fn after_events(o: CoordinatorView, es: Seq<CoordinatorEvent>) -> CoordinatorView
    decreases es.len(),
{
    if es.len() == 0 {
        o
    } else {
        after_event(after_events(o, es.drop_last()), es.last())
    }
}

/// How many of the calls are submissions.
pub open spec fn submissions(es: Seq<CoordinatorEvent>) -> nat
    decreases es.len(),
{
    if es.len() == 0 {
        0
    } else {
        submissions(es.drop_last()) + if es.last() is Submit {
            1nat
        } else {
            0nat
        }
    }
}

/// The snapshots that the submissions among the calls carry, in order.
pub open spec fn submitted_snapshots(es: Seq<CoordinatorEvent>) -> Seq<(Parity, BoundingBox)>
    decreases es.len(),
{
    if es.len() == 0 {
        Seq::empty()
    } else {
        let before = submitted_snapshots(es.drop_last());
        match es.last() {
            CoordinatorEvent::Submit(Some(s)) => before.push(s),
            _ => before,
        }
    }
}

/// Whether one of the calls tells the corpus size.
pub open spec fn kicked(es: Seq<CoordinatorEvent>) -> bool {
    exists|k: int| 0 <= k < es.len() && #[trigger] es[k] is Kick
}

/// Whether every call that tells the corpus size tells `n`.
pub open spec fn kicks_tell(es: Seq<CoordinatorEvent>, n: nat) -> bool {
    forall|k: int| 0 <= k < es.len() ==> match #[trigger] es[k] {
        CoordinatorEvent::Kick(total) => total == n,
        _ => true,
    }
}

/// A committed reference is kept by every later call: once a coordinator
/// holds a reference, no sequence of submissions and corpus-size calls
/// replaces or removes it, so the reference is committed at most once.
pub proof fn lemma_committed_reference_is_kept(o: CoordinatorView, es: Seq<CoordinatorEvent>)
    requires
        o.reference is Some,
    ensures
        after_events(o, es).reference == o.reference,
    decreases es.len(),
{
    if es.len() > 0 {
        lemma_committed_reference_is_kept(o, es.drop_last());
    }
}

/// What holds after every prefix of the calls of
/// [`lemma_every_page_gets_the_reference`].
spec fn run_invariant(
    v: CoordinatorView,
    es: Seq<CoordinatorEvent>,
    n: nat,
    threshold: nat,
    canvas: TargetCanvas,
) -> bool {
    &&& v.threshold == threshold
    &&& v.canvas == canvas
    &&& v.submitted == submissions(es)
    &&& v.snapshots == submitted_snapshots(es)
    &&& (kicked(es) ==> v.submitted_target == Some(n))
    &&& (v.submitted_target is Some ==> v.submitted_target == Some(n))
    &&& (v.reference is None ==> v.snapshots.len() < threshold)
    &&& (v.reference is None && v.submitted_target is Some ==> v.submitted < n)
    &&& (v.reference is Some ==> {
        ||| v.snapshots.len() >= threshold && v.reference == Some(
            committed_reference(v.snapshots.take(threshold as int), canvas),
        )
        ||| v.snapshots.len() < threshold && v.submitted == n && v.reference == Some(
            committed_reference(v.snapshots, canvas),
        )
    })
}

proof fn lemma_run_invariant(threshold: nat, canvas: TargetCanvas, es: Seq<CoordinatorEvent>, n: nat)
    requires
        threshold >= 1,
        n <= usize::MAX,
        submissions(es) <= n,
        kicks_tell(es, n),
    ensures
        run_invariant(after_events(initial_state(threshold, canvas), es), es, n, threshold, canvas),
    decreases es.len(),
{
    if es.len() == 0 {
        assert(!kicked(es));
        return;
    }
    let pre = es.drop_last();
    let e = es.last();
    assert(kicks_tell(pre, n)) by {
        assert forall|k: int| 0 <= k < pre.len() implies match #[trigger] pre[k] {
            CoordinatorEvent::Kick(total) => total == n,
            _ => true,
        } by {
            assert(pre[k] == es[k]);
        }
    }
    lemma_run_invariant(threshold, canvas, pre, n);
    let v = after_events(initial_state(threshold, canvas), pre);
    let w = after_events(initial_state(threshold, canvas), es);
    assert(w == after_event(v, e));
    let last = es.len() - 1;
    assert(es[last] == e);
    if kicked(es) {
        let k = choose|k: int| 0 <= k < es.len() && #[trigger] es[k] is Kick;
        if k < last {
            assert(pre[k] == es[k]);
            assert(kicked(pre));
        }
    }
    if kicked(pre) {
        let k = choose|k: int| 0 <= k < pre.len() && #[trigger] pre[k] is Kick;
        assert(pre[k] == es[k]);
        assert(kicked(es));
    }
    match e {
        CoordinatorEvent::Submit(b) => {
            let s2 = snapshots_after(v, b);
            assert(w.snapshots == s2);
            if v.reference is Some {
                if v.snapshots.len() >= threshold {
                    assert(s2.take(threshold as int) =~= v.snapshots.take(threshold as int));
                }
            } else if s2.len() >= threshold {
                assert(s2.len() == threshold);
                assert(s2.take(threshold as int) =~= s2);
            }
        },
        CoordinatorEvent::Kick(total) => {
            assert(total == n);
        },
    }
}

/// Every page gets the reference, built from the first snapshots: on a
/// fresh coordinator whose threshold is at least one, once exactly `n`
/// pages have been submitted and the corpus size `n` has been told, in any
/// order, a reference is committed. It is computed from the first
/// `threshold` snapshots submitted, or from all of them when fewer
/// arrived (the centered fallback when none did).
pub proof fn lemma_every_page_gets_the_reference(
    threshold: nat,
    canvas: TargetCanvas,
    es: Seq<CoordinatorEvent>,
    n: nat,
)
    requires
        threshold >= 1,
        n <= usize::MAX,
        submissions(es) == n,
        kicked(es),
        kicks_tell(es, n),
    ensures
        ({
            let v = after_events(initial_state(threshold, canvas), es);
            let s = submitted_snapshots(es);
            let used = if s.len() < threshold {
                s.len() as int
            } else {
                threshold as int
            };
            &&& v.snapshots == s
            &&& v.reference == Some(committed_reference(s.take(used), canvas))
        }),
{
    lemma_run_invariant(threshold, canvas, es, n);
    let s = submitted_snapshots(es);
    assert(s.take(s.len() as int) =~= s);
}

/// Snapshots per worker that feed the reference.
pub const REFERENCE_THRESHOLD_PER_WORKER: usize = 1;

/// The floor on the number of snapshots that feed the reference.
pub const REFERENCE_THRESHOLD_MIN: usize = 8;

/// The number of snapshots the reference waits for, with `num_workers`
/// workers on `num_files` pages: [`REFERENCE_THRESHOLD_PER_WORKER`] per
/// worker but at least [`REFERENCE_THRESHOLD_MIN`], then never more than
/// there are workers (each holds its page while it waits: asking for more
/// would deadlock) nor than there are pages (counting at least one).
pub open spec fn threshold_for(num_workers: int, num_files: int) -> int {
    let wanted = num_workers * REFERENCE_THRESHOLD_PER_WORKER;
    let floored = if wanted >= REFERENCE_THRESHOLD_MIN { wanted } else { REFERENCE_THRESHOLD_MIN as int };
    let by_workers = if floored <= num_workers { floored } else { num_workers };
    let pages = if num_files >= 1 { num_files } else { 1 };
    if by_workers <= pages { by_workers } else { pages }
}

/// See [`threshold_for`].
pub fn reference_threshold(num_workers: usize, num_files: usize) -> (r: usize)
    ensures
        r == threshold_for(num_workers as int, num_files as int),
        r <= num_workers,
        num_files >= 1 ==> r <= num_files,
        num_workers >= 1 ==> r >= 1,
{
    let wanted = num_workers * REFERENCE_THRESHOLD_PER_WORKER;
    let floored = if wanted >= REFERENCE_THRESHOLD_MIN { wanted } else { REFERENCE_THRESHOLD_MIN };
    let by_workers = if floored <= num_workers { floored } else { num_workers };
    let pages = if num_files >= 1 { num_files } else { 1 };
    if by_workers <= pages { by_workers } else { pages }
}

/// What a [`Coordinator`] holds.
pub struct CoordinatorView {
    /// Snapshots submitted so far, in arrival order.
    pub snapshots: Seq<(Parity, BoundingBox)>,
    /// The committed reference, once there is one.
    pub reference: Option<ReferenceLayout>,
    /// Number of submissions, blank pages included.
    pub submitted: nat,
    /// Total number of pages, once the producer has queued them all.
    pub submitted_target: Option<nat>,
    /// Snapshots needed before the reference is committed.
    pub threshold: nat,
    /// The canvas every page is rendered onto.
    pub canvas: TargetCanvas,
}

/// Reference-broadcast coordinator state.
pub struct Coordinator {
    snapshots: Vec<(Parity, BoundingBox)>,
    reference: Option<ReferenceLayout>,
    submitted: usize,
    submitted_target: Option<usize>,
    threshold: usize,
    canvas: TargetCanvas,
}

impl View for Coordinator {
    type V = CoordinatorView;

    closed spec fn view(&self) -> CoordinatorView {
        CoordinatorView {
            snapshots: self.snapshots@,
            reference: self.reference,
            submitted: self.submitted as nat,
            submitted_target: match self.submitted_target {
                Some(t) => Some(t as nat),
                None => None,
            },
            threshold: self.threshold as nat,
            canvas: self.canvas,
        }
    }
}

impl Coordinator {
    /// A coordinator that commits the reference after `threshold`
    /// snapshots.
    pub fn new(threshold: usize, canvas: TargetCanvas) -> (r: Self)
        ensures
            r@ == initial_state(threshold as nat, canvas),
    {
        Self {
            snapshots: Vec::new(),
            reference: None,
            submitted: 0,
            submitted_target: None,
            threshold,
            canvas,
        }
    }

    /// The committed reference, if any.
    pub fn reference(&self) -> (r: Option<ReferenceLayout>)
        ensures
            r == self@.reference,
    {
        self.reference
    }

    /// Record one submission: `bbox` is the page's snapshot, or `None` for
    /// a page without ink. Commits the reference, and returns `Ok(true)`,
    /// when none was committed yet and either `threshold` snapshots have now
    /// arrived or this was the last page of the corpus. A committed
    /// reference is never replaced.
    pub fn submit(&mut self, bbox: Option<(Parity, BoundingBox)>) -> (r: Result<bool, RegisterError>)
        requires
            old(self)@.submitted < usize::MAX,
        ensures
            final(self)@ == after_submit(old(self)@, bbox),
            r == Ok::<bool, RegisterError>(submit_commits(old(self)@, bbox)),
    {
        self.submitted = self.submitted + 1;
        match bbox {
            Some(snap) => self.snapshots.push(snap),
            None => {},
        }
        let target = match self.submitted_target {
            Some(t) => t,
            None => usize::MAX,
        };
        let should_trigger = self.reference.is_none() && (self.snapshots.len() >= self.threshold
            || self.submitted == target);
        if should_trigger {
            let reference = compute_reference_or_fallback(&self.snapshots, self.canvas)?;
            self.reference = Some(reference);
        }
        Ok(should_trigger)
    }

    /// Called once every page has been queued: record the corpus size, and
    /// commit the reference (returning `true`) when every page has already
    /// been submitted and none was committed yet.
    pub fn kick_if_short_corpus(&mut self, total_pages: usize) -> (r: bool)
        ensures
            final(self)@ == after_kick(old(self)@, total_pages as nat),
            r == kick_commits(old(self)@, total_pages as nat),
    {
        self.submitted_target = Some(total_pages);
        if self.reference.is_some() || self.submitted < total_pages {
            false
        } else {
            match compute_reference_or_fallback(&self.snapshots, self.canvas) {
                Ok(reference) => {
                    self.reference = Some(reference);
                    true
                },
                Err(_) => false,
            }
        }
    }
}

} // verus!
