use drop_dupe::engine::Detector;
use drop_dupe::engine::detect;

fn square(rows: Vec<Vec<u64>>) -> Vec<Vec<u64>> {
    let n = rows.len();
    for row in &rows {
        assert_eq!(row.len(), n);
    }
    rows
}

#[test]
fn zero_threshold_discards_nothing() {
    // Distinct frames and threshold 0: no score is strictly below 0.
    let scores = square(vec![
        vec![0, 7, 9, 4],
        vec![0, 0, 6, 8],
        vec![0, 0, 0, 5],
        vec![0, 0, 0, 0],
    ]);
    let flags = detect(&scores, 0);
    assert_eq!(flags, vec![false, false, false, false]);
}

#[test]
fn constant_sequence_keeps_only_first() {
    // Every pair scores 0: with any positive threshold only frame 0 stays.
    let scores = square(vec![
        vec![0, 0, 0, 0],
        vec![0, 0, 0, 0],
        vec![0, 0, 0, 0],
        vec![0, 0, 0, 0],
    ]);
    let flags = detect(&scores, 1);
    assert_eq!(flags, vec![false, true, true, true]);
}

#[test]
fn single_frame_is_kept() {
    let scores = square(vec![vec![0]]);
    let flags = detect(&scores, u64::MAX);
    assert_eq!(flags, vec![false]);
}

#[test]
fn empty_sequence() {
    let scores: Vec<Vec<u64>> = vec![];
    let flags = detect(&scores, 5);
    assert!(flags.is_empty());
}

#[test]
fn first_frame_never_discarded() {
    // Even with a huge threshold, frame 0 survives as the first reference.
    let scores = square(vec![vec![0, 1, 1], vec![0, 0, 1], vec![0, 0, 0]]);
    let flags = detect(&scores, u64::MAX);
    assert!(!flags[0]);
    assert_eq!(flags, vec![false, true, true]);
}

#[test]
fn drift_collapses_to_reference() {
    // Frames 1 and 2 are close to frame 0 while their mutual scores do not
    // matter: the first reference claims both.
    let scores = square(vec![vec![0, 1, 2], vec![0, 0, 9], vec![0, 0, 0]]);
    let flags = detect(&scores, 3);
    assert_eq!(flags, vec![false, true, true]);
}

#[test]
fn discarded_frame_is_no_reference() {
    // Frame 1 is a duplicate of frame 0.  Frame 2 is close to frame 1 but
    // far from frame 0: since frame 1 may not serve as a reference, frame 2
    // survives.
    let scores = square(vec![vec![0, 1, 8], vec![0, 0, 1], vec![0, 0, 0]]);
    let flags = detect(&scores, 3);
    assert_eq!(flags, vec![false, true, false]);
}

// Dissimilarity metrics yield non-negative reals; their bit patterns
// preserve order, so a run encoded this way decides exactly as the metric
// itself would.
fn enc(score: f64) -> u64 {
    assert!(score >= 0.0);
    score.to_bits()
}

#[test]
fn near_identical_run_scenario() {
    // Five frames; frames 2 and 3 (1-based) score 0.001 against frame 1,
    // under the threshold 0.01; frames 4 and 5 are distinct from everything.
    let far = enc(0.5);
    let near = enc(0.001);
    let scores = square(vec![
        vec![0, near, near, far, far],
        vec![0, 0, near, far, far],
        vec![0, 0, 0, far, far],
        vec![0, 0, 0, 0, far],
        vec![0, 0, 0, 0, 0],
    ]);
    let flags = detect(&scores, enc(0.01));
    assert_eq!(flags, vec![false, true, true, false, false]);
}

#[test]
fn detector_walks_only_live_pairs() {
    // Constant three-frame sequence: after frame 1 is discarded the sweep
    // moves straight to (0, 2) and never offers a dead pair.
    let mut det = Detector::new(3, 10);
    assert!(!det.done());
    assert_eq!(det.current(), (0, 1));
    det.step(0);
    assert!(!det.done());
    assert_eq!(det.current(), (0, 2));
    det.step(0);
    assert!(det.done());
    assert_eq!(det.into_flags(), vec![false, true, true]);
}

#[test]
fn detector_advances_reference() {
    // Nothing scores under the threshold: every pair is offered in order.
    let mut det = Detector::new(3, 0);
    let mut pairs = Vec::new();
    while !det.done() {
        pairs.push(det.current());
        det.step(1);
    }
    assert_eq!(pairs, vec![(0, 1), (0, 2), (1, 2)]);
    assert_eq!(det.into_flags(), vec![false, false, false]);
}

#[test]
fn detector_short_sequences_start_done() {
    assert!(Detector::new(0, 5).done());
    assert!(Detector::new(1, 5).done());
    assert_eq!(Detector::new(1, 5).into_flags(), vec![false]);
}
