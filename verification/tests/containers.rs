use ray_tracer::containers::refraction_sides;

#[test]
fn nested_objects_give_the_sides_of_each_hit() {
    // Three nested spheres met in the order A, B, C, B, C, A.
    let ids = vec![0, 1, 2, 1, 2, 0];
    let expected = vec![
        (None, Some(0)),
        (Some(0), Some(1)),
        (Some(1), Some(2)),
        (Some(2), Some(2)),
        (Some(2), Some(0)),
        (Some(0), None),
    ];
    for (hit, sides) in expected.into_iter().enumerate() {
        assert_eq!(refraction_sides(&ids, hit), sides, "hit {}", hit);
    }
}

#[test]
fn a_single_object_is_entered_then_left() {
    let ids = vec![7, 7];
    assert_eq!(refraction_sides(&ids, 0), (None, Some(7)));
    assert_eq!(refraction_sides(&ids, 1), (Some(7), None));
}
