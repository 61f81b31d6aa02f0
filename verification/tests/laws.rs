use list_zipper::{SequenceDirection, Zipper, ZipperIter};

fn ring(n: i32) -> Zipper<i32> {
    Zipper::from_vec((0..n).collect::<Vec<_>>())
}

fn seen(mut it: ZipperIter<'_, i32>) -> Vec<i32> {
    let mut v = Vec::new();
    while let Some(t) = it.next() {
        v.push(*t);
    }
    v
}

#[test]
fn steps_forward_rotate_the_sequence() {
    for n in 1..6 {
        for k in 0..14usize {
            let mut zipper = ring(n);
            for _ in 0..k {
                zipper.step_forwards();
            }
            let mut expected: Vec<i32> = (0..n).collect();
            expected.rotate_left(k % n as usize);
            assert_eq!(seen(zipper.iter()), expected);
        }
    }
}

#[test]
fn seven_steps_over_five_elements_start_at_the_third() {
    let mut zipper = ring(5);
    for _ in 0..7 {
        zipper.step(SequenceDirection::Original);
    }
    assert_eq!(seen(zipper.iter()), vec![2, 3, 4, 0, 1]);
}

#[test]
fn resets_settle() {
    for k in 0..6 {
        let mut zipper = ring(6);
        for _ in 0..k {
            zipper.step_forwards();
        }
        zipper.reset_start();
        let at_start = zipper.clone();
        zipper.reset_start();
        assert_eq!(zipper, at_start);

        zipper.reset_end();
        let at_end = zipper.clone();
        assert_eq!(at_end.focus(), Some(&5));
        zipper.reset_end();
        assert_eq!(zipper, at_end);
        zipper.reset_end();
        assert_eq!(zipper, at_end);

        zipper.reset_start();
        assert_eq!(zipper, at_start);
    }
}

#[test]
fn a_step_and_a_step_back_change_nothing() {
    for n in 1..6 {
        for k in 0..n {
            let mut zipper = ring(n);
            for _ in 0..k {
                zipper.step_forwards();
            }
            let before = zipper.clone();

            zipper.step_forwards().step_backwards();
            assert_eq!(zipper, before);

            zipper.step_backwards().step_forwards();
            assert_eq!(zipper, before);

            zipper.step(SequenceDirection::Original).step(SequenceDirection::Reverse);
            assert_eq!(zipper, before);
        }
    }
}

#[test]
fn offset_zero_is_the_focus() {
    for n in 0..5 {
        let mut zipper = ring(n);
        for _ in 0..n + 1 {
            assert_eq!(zipper.ith(0), zipper.focus());
            zipper.step_forwards();
        }
    }
}

#[test]
fn offsets_a_round_apart_reach_the_same_element() {
    let mut zipper = ring(7);
    zipper.step_forwards().step_forwards().step_forwards();
    let size = zipper.size() as isize;
    for i in -20..20isize {
        assert_eq!(zipper.ith(i), zipper.ith(i - size));
        assert_eq!(zipper.ith(i), zipper.ith(i + size));
    }
    assert_eq!(zipper.ith(2), Some(&5));
    assert_eq!(zipper.ith(-5), Some(&5));
    assert_eq!(zipper.ith(9), Some(&5));
}

#[test]
fn searches_for_one_element_agree_from_every_start() {
    for target in 0..6 {
        for k in 0..6 {
            let mut forwards = ring(6);
            for _ in 0..k {
                forwards.step_forwards();
            }
            let mut backwards = forwards.clone();

            forwards.refocus(|x| *x == target);
            backwards.refocus_backwards(|x| *x == target);

            assert_eq!(forwards.focus(), Some(&target));
            assert_eq!(backwards.focus(), Some(&target));
            assert_eq!(forwards, backwards);
        }
    }
}

#[test]
fn searches_agree_on_the_element_where_all_matches_are_equal() {
    let mut forwards = Zipper::from_vec(vec![1, 5, 2, 5, 3]);
    let mut backwards = forwards.clone();
    forwards.refocus(|x| *x == 5);
    backwards.refocus_backwards(|x| *x == 5);
    assert_eq!(forwards.focus(), Some(&5));
    assert_eq!(backwards.focus(), Some(&5));
    assert_eq!(forwards.ith(1), Some(&2));
    assert_eq!(backwards.ith(1), Some(&3));
}
