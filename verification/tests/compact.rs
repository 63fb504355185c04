use drop_dupe::compact::frame_name;
use drop_dupe::compact::renumber_plan;
use drop_dupe::compact::survivors;
use drop_dupe::engine::detect;

#[test]
fn survivors_skip_discards() {
    let discard = vec![false, true, false, true, false];
    assert_eq!(survivors(&discard), vec![1, 3, 5]);
}

#[test]
fn survivors_of_empty() {
    let discard: Vec<bool> = vec![];
    assert!(survivors(&discard).is_empty());
}

#[test]
fn survivors_all_discarded() {
    let discard = vec![true, true, true];
    assert!(survivors(&discard).is_empty());
}

#[test]
fn plan_renumbers_contiguously() {
    // Round trip: five frames, two discarded, three survivors renumbered
    // 1..3 in their original order.
    let discard = vec![false, true, false, true, false];
    let plan = renumber_plan(&discard);
    assert_eq!(plan, vec![(1, 1), (3, 2), (5, 3)]);
}

#[test]
fn empty_discard_set_is_identity() {
    // Idempotence: an already-contiguous sequence with nothing discarded
    // keeps every name.
    let discard = vec![false; 6];
    let plan = renumber_plan(&discard);
    assert_eq!(plan, vec![(1, 1), (2, 2), (3, 3), (4, 4), (5, 5), (6, 6)]);
    for (from, to) in plan {
        assert_eq!(from, to);
    }
}

#[test]
fn near_identical_run_compacts_to_three() {
    // Five frames with frames 2 and 3 (1-based) discarded as duplicates of
    // frame 1: three files remain, named 1, 2, 3, holding the original
    // frames 1, 4 and 5.
    let discard = vec![false, true, true, false, false];
    let plan = renumber_plan(&discard);
    assert_eq!(plan.len(), 3);
    assert_eq!(plan, vec![(1, 1), (4, 2), (5, 3)]);
}

#[test]
fn distinct_frames_compact_to_no_op() {
    // Threshold 0 over distinct frames: the engine discards nothing and
    // compaction changes no name.
    let scores = vec![vec![0, 5, 6], vec![0, 0, 7], vec![0, 0, 0]];
    let flags = detect(&scores, 0);
    let plan = renumber_plan(&flags);
    assert_eq!(plan, vec![(1, 1), (2, 2), (3, 3)]);
}

#[test]
fn frame_names_are_zero_padded() {
    assert_eq!(frame_name(1), "00000001.png");
    assert_eq!(frame_name(42), "00000042.png");
    assert_eq!(frame_name(12345678), "12345678.png");
}

#[test]
fn frame_name_of_zero() {
    assert_eq!(frame_name(0), "00000000.png");
}

#[test]
fn frame_names_beyond_the_pad_width() {
    assert_eq!(frame_name(99999999), "99999999.png");
    assert_eq!(frame_name(100000000), "100000000.png");
    assert_eq!(frame_name(u64::MAX), "18446744073709551615.png");
}
