use topos::shape::Shape;

#[test]
fn scalar_has_rank_zero_and_volume_one() {
    let shape = Shape::scalar();
    assert_eq!(shape.rank(), 0);
    assert_eq!(shape.volume(), 1);
    assert_eq!(shape.axes(), &[] as &[usize]);
}

#[test]
fn axes_determine_rank_and_volume() {
    let shape = Shape::new(vec![2, 3, 4]);
    assert_eq!(shape.rank(), 3);
    assert_eq!(shape.volume(), 24);
    assert_eq!(shape.axes(), &[2, 3, 4]);
}

#[test]
#[should_panic(expected = "overflows")]
fn volume_rejects_overflow() {
    Shape::new(vec![usize::MAX, 2]).volume();
}

#[test]
fn without_axis_drops_the_named_axis() {
    let shape = Shape::new(vec![2, 3, 4]);
    assert_eq!(shape.without_axis(0), Shape::new(vec![3, 4]));
    assert_eq!(shape.without_axis(1), Shape::new(vec![2, 4]));
    assert_eq!(Shape::new(vec![5]).without_axis(0), Shape::scalar());
}

#[test]
fn checked_volume_answers_none_on_overflow() {
    assert_eq!(Shape::new(vec![usize::MAX, 2]).checked_volume(), None);
    assert_eq!(Shape::new(vec![3, 0, 5]).checked_volume(), Some(0));
    assert_eq!(Shape::new(vec![3, 5]).checked_volume(), Some(15));
}

#[test]
fn extents_are_read_by_axis() {
    let shape = Shape::new(vec![7, 9]);
    assert_eq!(shape.extent(0), 7);
    assert_eq!(shape.extent(1), 9);
    assert!(shape.same_as(&Shape::new(vec![7, 9])));
    assert!(!shape.same_as(&Shape::new(vec![9, 7])));
    assert!(!shape.same_as(&Shape::new(vec![7])));
}

#[test]
fn display_lists_the_axes() {
    assert_eq!(Shape::new(vec![3, 2]).to_string(), "[3, 2]");
    assert_eq!(Shape::scalar().to_string(), "[]");
}

#[test]
fn text_spells_multi_digit_extents() {
    assert_eq!(Shape::new(vec![1024, 7, 10]).to_string(), "[1024, 7, 10]");
    assert_eq!(Shape::new(vec![0]).to_string(), "[0]");
}
