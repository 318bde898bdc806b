use physics_engine_2d::{collision_pairs, pair_test, PairTest, ShapeKind};

#[test]
fn pairs_of_four_bodies() {
    assert_eq!(
        collision_pairs(4),
        vec![(0, 1), (0, 2), (0, 3), (1, 2), (1, 3), (2, 3)]
    );
}

#[test]
fn no_pairs_below_two_bodies() {
    assert!(collision_pairs(0).is_empty());
    assert!(collision_pairs(1).is_empty());
    assert_eq!(collision_pairs(2), vec![(0, 1)]);
}

#[test]
fn pair_count_is_n_choose_two() {
    for n in 0..20usize {
        let p = collision_pairs(n);
        assert_eq!(p.len(), n * n.saturating_sub(1) / 2);
        for w in p.windows(2) {
            assert!(w[0] < w[1]);
        }
    }
}

#[test]
fn same_kind_pairs_have_a_test() {
    assert_eq!(pair_test(ShapeKind::Circle, ShapeKind::Circle), PairTest::CircleCircle);
    assert_eq!(pair_test(ShapeKind::Rectangle, ShapeKind::Rectangle), PairTest::RectangleRectangle);
}

#[test]
fn circle_rectangle_pairs_are_unhandled() {
    assert_eq!(pair_test(ShapeKind::Circle, ShapeKind::Rectangle), PairTest::Unhandled);
    assert_eq!(pair_test(ShapeKind::Rectangle, ShapeKind::Circle), PairTest::Unhandled);
}
