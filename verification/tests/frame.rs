use cellular::frame::Frame;

#[test]
fn frame_frame_init() {
    let frame = Frame::<i32>::new(10, 10);
    assert_eq!(frame.width(), 10);
    assert_eq!(frame.height(), 10);
    for x in 0..9 {
        for y in 0..9 {
            assert_eq!(*frame.get(x, y), i32::default());
        }
    }
}

#[test]
fn frame_frame_mut() {
    let mut frame = Frame::<i32>::new(2, 2);
    *frame.get_mut(1, 1) = 1;
    assert_eq!(*frame.get(1, 1), 1)
}

#[test]
fn frame_frame_next() {
    let mut frame1 = Frame::<i32>::new(2, 2);

    let frame2 = frame1.next_frame(|sq| sq.get(0, 0) + 1);

    let val = i32::default() + 1;
    *frame1.get_mut(0, 0) = val;
    *frame1.get_mut(0, 1) = val;
    *frame1.get_mut(1, 0) = val;
    *frame1.get_mut(1, 1) = val;

    assert_eq!(frame1, frame2);
}

#[test]
fn tests_frame_init() {
    let frame = Frame::<i32>::new(10, 10);
    assert_eq!(frame.width(), 10);
    assert_eq!(frame.height(), 10);
    for x in 0..9 {
        for y in 0..9 {
            assert_eq!(*frame.get(x, y), i32::default());
        }
    }
}

#[test]
fn tests_frame_mut() {
    let mut frame = Frame::<i32>::new(2, 2);
    frame.set(1, 1, 1);
    assert_eq!(*frame.get(1, 1), 1)
}

#[test]
fn tests_frame_next() {
    let mut frame1 = Frame::<i32>::new(2, 2);

    let frame2 = frame1.next_frame(|sq| sq.get(0, 0) + 1);

    let val = i32::default() + 1;
    frame1.set(0, 0, val);
    frame1.set(0, 1, val);
    frame1.set(1, 0, val);
    frame1.set(1, 1, val);

    assert_eq!(frame1, frame2);
}

#[test]
fn every_cell_of_a_new_frame_is_default() {
    let frame = Frame::<u8>::new(3, 5);
    assert_eq!(frame.width(), 3);
    assert_eq!(frame.height(), 5);
    for y in 0..5 {
        for x in 0..3 {
            assert_eq!(*frame.get(x, y), 0);
        }
    }
    let words = Frame::<String>::new(1, 1);
    assert_eq!(*words.get(0, 0), String::new());
}

#[test]
fn set_changes_one_cell_of_a_wide_frame() {
    let mut frame = Frame::<u32>::new(3, 2);
    for y in 0..2 {
        for x in 0..3 {
            frame.set(x, y, (10 * y + x) as u32);
        }
    }
    for y in 0..2 {
        for x in 0..3 {
            assert_eq!(*frame.get(x, y), (10 * y + x) as u32);
        }
    }
    frame.set(2, 0, 99);
    assert_eq!(*frame.get(2, 0), 99);
    assert_eq!(*frame.get(0, 1), 10);
    assert_eq!(*frame.get(1, 0), 1);
    assert_eq!(*frame.get(2, 1), 12);
}

#[test]
fn set_changes_one_cell_of_a_tall_frame() {
    let mut frame = Frame::<u32>::new(2, 3);
    for y in 0..3 {
        for x in 0..2 {
            *frame.get_mut(x, y) = (10 * y + x) as u32;
        }
    }
    for y in 0..3 {
        for x in 0..2 {
            assert_eq!(*frame.get(x, y), (10 * y + x) as u32);
        }
    }
    assert_eq!(frame.width(), 2);
    assert_eq!(frame.height(), 3);
}

#[test]
fn frames_compare_by_extent_and_content() {
    let mut a = Frame::<i32>::new(2, 2);
    let mut b = Frame::<i32>::new(2, 2);
    assert_eq!(a, b);
    a.set(0, 1, 5);
    assert_ne!(a, b);
    b.set(0, 1, 5);
    assert_eq!(a, b);
    assert_ne!(Frame::<i32>::new(1, 4), Frame::<i32>::new(4, 1));
}

#[test]
fn cursor_walks_rows_first() {
    let mut frame = Frame::<u32>::new(3, 2);
    for y in 0..2 {
        for x in 0..3 {
            frame.set(x, y, (10 * y + x) as u32);
        }
    }
    let mut cursor = frame.enumerate_squares();
    let mut seen = Vec::new();
    while let Some((x, y, value)) = cursor.next() {
        seen.push((x, y, *value));
    }
    assert_eq!(
        seen,
        vec![(0, 0, 0), (1, 0, 1), (2, 0, 2), (0, 1, 10), (1, 1, 11), (2, 1, 12)]
    );
    assert!(cursor.next().is_none());
    assert!(cursor.next().is_none());
}

#[test]
fn cursor_can_be_restarted_and_copied() {
    let mut frame = Frame::<u32>::new(2, 2);
    frame.set(1, 0, 4);
    let mut first = frame.enumerate_squares();
    assert_eq!(first.next(), Some((0, 0, &0)));
    let mut copy = first.clone();
    assert_eq!(copy, first);
    assert_eq!(first.next(), Some((1, 0, &4)));
    assert_eq!(copy.next(), Some((1, 0, &4)));
    let mut again = frame.enumerate_squares();
    assert_eq!(again.next(), Some((0, 0, &0)));
}

#[test]
fn cursor_over_an_empty_frame_is_done() {
    let no_columns = Frame::<u32>::new(0, 4);
    assert!(no_columns.enumerate_squares().next().is_none());
    let no_rows = Frame::<u32>::new(4, 0);
    assert!(no_rows.enumerate_squares().next().is_none());
    let nothing = Frame::<u32>::new(0, 0);
    assert!(nothing.enumerate_squares().next().is_none());
}

#[test]
fn empty_frame_steps_to_an_empty_frame() {
    let frame = Frame::<u32>::new(0, 3);
    let next = frame.next_frame(|sq| *sq.get(0, 0));
    assert_eq!(next, frame);
    assert_eq!(next.width(), 0);
    assert_eq!(next.height(), 3);
}
