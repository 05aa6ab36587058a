use billiard::collision::{
    compute_collisions, Collision, CollisionSearch, WallOrientation, WallTimes, NO_COLLISION_BITS,
    TOI_EPSILON_BITS,
};

fn bits(t: f64) -> u64 {
    t.to_bits()
}

fn wall(n: usize, orientation: WallOrientation) -> Collision {
    Collision::BallToWall { n, orientation }
}

#[test]
fn time_constants_are_the_float_bit_patterns() {
    assert_eq!(TOI_EPSILON_BITS, 2.0e-15f64.to_bits());
    assert_eq!(NO_COLLISION_BITS, f64::MAX.to_bits());
}

#[test]
fn new_search_has_found_nothing() {
    let s = CollisionSearch::new();
    assert!(s.collisions().is_empty());
    assert_eq!(s.toi(), NO_COLLISION_BITS);
}

#[test]
fn earlier_candidate_replaces_later_ones() {
    let mut s = CollisionSearch::new();
    assert!(s.offer(wall(0, WallOrientation::Vertical), bits(3.0)));
    assert!(s.offer(wall(1, WallOrientation::Vertical), bits(1.5)));
    assert_eq!(s.collisions(), &vec![wall(1, WallOrientation::Vertical)]);
    assert_eq!(f64::from_bits(s.toi()), 1.5);
}

#[test]
fn simultaneous_candidates_are_all_kept_in_order() {
    let mut s = CollisionSearch::new();
    assert!(s.offer(wall(0, WallOrientation::Horizontal), bits(2.0)));
    assert!(s.offer(Collision::BallToBall { n1: 0, n2: 1 }, bits(2.0)));
    assert!(!s.offer(wall(1, WallOrientation::Vertical), bits(2.5)));
    assert_eq!(
        s.collisions(),
        &vec![wall(0, WallOrientation::Horizontal), Collision::BallToBall { n1: 0, n2: 1 }]
    );
    assert_eq!(f64::from_bits(s.toi()), 2.0);
}

#[test]
fn too_early_or_invalid_times_are_dropped() {
    let mut s = CollisionSearch::new();
    for t in [0.0, -0.0, 1.0e-15, 2.0e-15, -4.0, f64::INFINITY, f64::NEG_INFINITY, f64::NAN] {
        assert!(!s.offer(wall(0, WallOrientation::Vertical), bits(t)), "time {}", t);
    }
    assert!(s.collisions().is_empty());
    assert_eq!(s.toi(), NO_COLLISION_BITS);
}

#[test]
fn bit_order_decides_as_the_float_order() {
    let times = [
        -1.0, -0.0, 0.0, 1.0e-300, 1.0e-15, 2.0e-15, 2.0000000000000003e-15, 3.0e-15, 0.5, 1.0,
        1.0000000000000002, 7.25, 1.0e10, f64::MAX, f64::INFINITY, f64::NAN, -f64::MAX,
        f64::NEG_INFINITY,
    ];
    let minima = [3.0e-15, 0.5, 1.0, 7.25, 1.0e10, f64::MAX];
    for &min in minima.iter() {
        for &t in times.iter() {
            let mut s = CollisionSearch::new();
            s.offer(wall(9, WallOrientation::Vertical), bits(min));
            let kept = s.offer(wall(1, WallOrientation::Horizontal), bits(t));
            assert_eq!(kept, t > 2.0e-15 && t <= min, "min {} time {}", min, t);
            let expected_min = if kept { t } else { min };
            assert_eq!(f64::from_bits(s.toi()).to_bits(), expected_min.to_bits());
        }
    }
}

#[test]
fn second_wall_time_only_where_first_is_dropped() {
    let mut s = CollisionSearch::new();
    s.offer_either(wall(0, WallOrientation::Vertical), bits(4.0), bits(1.0));
    assert_eq!(f64::from_bits(s.toi()), 4.0);
    assert_eq!(s.collisions(), &vec![wall(0, WallOrientation::Vertical)]);

    let mut s = CollisionSearch::new();
    s.offer_either(wall(0, WallOrientation::Vertical), bits(-4.0), bits(1.0));
    assert_eq!(f64::from_bits(s.toi()), 1.0);
    assert_eq!(s.collisions(), &vec![wall(0, WallOrientation::Vertical)]);

    let mut s = CollisionSearch::new();
    s.offer_either(wall(0, WallOrientation::Vertical), bits(-4.0), bits(-1.0));
    assert!(s.collisions().is_empty());
}

fn times(min_x: f64, max_x: f64, min_y: f64, max_y: f64) -> WallTimes {
    WallTimes { min_x: bits(min_x), max_x: bits(max_x), min_y: bits(min_y), max_y: bits(max_y) }
}

#[test]
fn compute_collisions_finds_the_ball_meeting() {
    let walls = vec![times(-1.0, 3.0, 5.0, -5.0), times(-2.0, 4.0, -6.0, 6.0)];
    let pairs = vec![vec![None, Some(bits(2.0))], vec![None, None]];
    let s = compute_collisions(&walls, &pairs);
    assert_eq!(s.collisions(), &vec![Collision::BallToBall { n1: 0, n2: 1 }]);
    assert_eq!(f64::from_bits(s.toi()), 2.0);
}

#[test]
fn compute_collisions_keeps_simultaneous_hits_in_ball_order() {
    let walls = vec![times(-1.0, 3.0, 5.0, -5.0), times(-2.0, 4.0, 3.0, -6.0)];
    let pairs = vec![vec![None, Some(bits(3.0))], vec![None, None]];
    let s = compute_collisions(&walls, &pairs);
    assert_eq!(
        s.collisions(),
        &vec![
            wall(0, WallOrientation::Vertical),
            Collision::BallToBall { n1: 0, n2: 1 },
            wall(1, WallOrientation::Horizontal),
        ]
    );
    assert_eq!(f64::from_bits(s.toi()), 3.0);
}

#[test]
fn compute_collisions_without_any_hit() {
    let walls = vec![times(-1.0, -3.0, -5.0, -5.0)];
    let pairs = vec![vec![None]];
    let s = compute_collisions(&walls, &pairs);
    assert!(s.collisions().is_empty());
    assert_eq!(s.toi(), NO_COLLISION_BITS);
}

#[test]
fn compute_collisions_of_no_ball() {
    let s = compute_collisions(&vec![], &vec![]);
    assert!(s.collisions().is_empty());
    assert_eq!(s.toi(), NO_COLLISION_BITS);
}
