use list_zipper::{SequenceDirection, Zipper, ZipperIter};

fn digits() -> Zipper<i32> {
    Zipper::from_vec((0..10).collect::<Vec<_>>())
}

fn collected(mut walk: ZipperIter<'_, i32>) -> Vec<i32> {
    let mut v = Vec::new();
    while let Some(t) = walk.next() {
        v.push(*t);
    }
    v
}

#[test]
fn reset_start_and_end_should_reset() {
    let mut zipper = digits();
    assert_eq!(
        zipper.focus().copied(),
        Some(0),
        "a newly collected zipper should focus the first element"
    );

    zipper.reset_end();
    assert_eq!(
        zipper.focus().copied(),
        Some(9),
        "resetting a zipper to the end should focus the last element"
    );

    zipper.reset_end();
    assert_eq!(
        zipper.focus().copied(),
        Some(9),
        "resetting to the end when focusing the end should be idempotent"
    );

    zipper.reset_start();
    assert_eq!(
        zipper.focus().copied(),
        Some(0),
        "resetting a zipper to the start should focus the first element"
    );

    zipper.reset_start();
    assert_eq!(
        zipper.focus().copied(),
        Some(0),
        "resetting to the start when focusing the start should be idempotent"
    );
}

#[test]
fn step_forward_moves_focus_forward() {
    let mut zipper = digits();
    assert_eq!(
        zipper.focus().copied(),
        Some(0),
        "a newly collected zipper should focus the first element"
    );

    zipper.step(SequenceDirection::Original);
    assert_eq!(
        zipper.focus().copied(),
        Some(1),
        "stepping forward should advance to the second element"
    );

    zipper.reset_end().step(SequenceDirection::Original);
    assert_eq!(
        zipper.focus().copied(),
        Some(0),
        "moving to the end and advancing should circle back to the start"
    );
}

#[test]
fn step_backward_moves_focus_backward() {
    let mut zipper = digits();
    assert_eq!(
        zipper.focus().copied(),
        Some(0),
        "a newly collected zipper should focus the first element"
    );

    zipper.step(SequenceDirection::Reverse);
    assert_eq!(
        zipper.focus().copied(),
        Some(9),
        "stepping backward from the first element should advance to the last element"
    );

    zipper.reset_end().step(SequenceDirection::Reverse);
    assert_eq!(
        zipper.focus().copied(),
        Some(8),
        "moving to the end and stepping back should yield the second-to-last element"
    );
}

#[test]
fn refocus_should_focus_the_first_matching_element() {
    let mut zipper = digits();
    assert_eq!(
        zipper.focus().copied(),
        Some(0),
        "a newly collected zipper should focus the first element"
    );

    zipper.refocus(|t| *t == 5);
    assert_eq!(
        zipper.focus().copied(),
        Some(5),
        "refocus should focus the selected element"
    );

    zipper.refocus(|t| t % 3 == 0);
    assert_eq!(
        zipper.focus().copied(),
        Some(6),
        "refocus should focus the first element satisfying the predicate"
    );
}

#[test]
fn iterator_yields_all_elements_starting_from_focus() {
    let mut zipper = digits();
    zipper.refocus(|t| *t == 5);
    assert_eq!(
        zipper.focus().copied(),
        Some(5),
        "refocus should focus the selected element"
    );

    let v = collected(zipper.iter());
    assert_eq!(
        &v,
        &[5, 6, 7, 8, 9, 0, 1, 2, 3, 4],
        "iterator should produce all elements in order, starting from the focus"
    );

    let v = collected(zipper.reverse_iter());
    assert_eq!(
        &v,
        &[5, 4, 3, 2, 1, 0, 9, 8, 7, 6],
        "reverse iterator should produce all elements in reverse order, starting from the focus"
    );

    let s = zipper.to_string();
    assert_eq!(
        &s, "[5, 6, 7, 8, 9, 0, 1, 2, 3, 4]",
        "pretty printing the zipper should work"
    );
}

#[test]
fn refocus_forward_and_backwards_is_equivalent() {
    let mut zipper1 = digits();
    zipper1.refocus(|t| *t == 5);
    assert_eq!(
        zipper1.focus().copied(),
        Some(5),
        "refocus should focus the selected element"
    );

    let mut zipper2 = digits();
    zipper2.refocus_backwards(|t| *t == 5);
    assert_eq!(
        zipper2.focus().copied(),
        Some(5),
        "refocus should focus the selected element"
    );

    assert_eq!(
        zipper1, zipper2,
        "refocusing forwards and backwards should yield the same zipper."
    );
}
