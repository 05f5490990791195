use shooter_core::game::Game;
use shooter_core::target::Target;

fn target_at(x: u16, y: u16, width: u16, height: u16) -> Target {
    Target::new(x, y, width, height, 50, 0, 5000)
}

#[test]
fn corner_containment_detects_contained_corner() {
    // Candidate footprint (50x50) at (110, 110): its top-left corner falls
    // inside the existing target's box [100, 160] x [100, 160].
    let existing = target_at(100, 100, 60, 60);
    assert!(Game::are_overlapping_targets(&existing, (110, 110)));
    // Bottom-right corner (90 + 50, 60 + 50) = (140, 110) falls inside too.
    assert!(Game::are_overlapping_targets(&existing, (90, 60)));
}

#[test]
fn corner_containment_is_lenient_on_crossing_rectangles() {
    // A tall, narrow existing target: box [100, 120] x [100, 300].
    // The candidate footprint [90, 140] x [150, 200] crosses it left to
    // right, yet none of the candidate's four corners lies inside the box,
    // so the test reports no overlap. This leniency is deliberate.
    let existing = target_at(100, 100, 20, 200);
    assert!(!Game::are_overlapping_targets(&existing, (90, 150)));
}

#[test]
fn corner_containment_counts_edges_as_inside() {
    // The box test is inclusive on all edges: a candidate whose top-left
    // corner sits exactly on the existing box's far corner still overlaps.
    let existing = target_at(100, 100, 20, 20);
    assert!(Game::are_overlapping_targets(&existing, (120, 120)));
    assert!(!Game::are_overlapping_targets(&existing, (121, 120)));
}

#[test]
fn point_is_within_is_inclusive() {
    assert!(Game::point_is_within((0, 0), (0, 0), (60, 20)));
    assert!(Game::point_is_within((60, 20), (0, 0), (60, 20)));
    assert!(!Game::point_is_within((61, 20), (0, 0), (60, 20)));
    assert!(!Game::point_is_within((60, 21), (0, 0), (60, 20)));
}

#[test]
fn pos_is_okay_rejects_score_readout_corner() {
    // The score readout occupies the screen's top-left corner.
    let none: Vec<Target> = Vec::new();
    assert!(!Game::pos_is_okay((0, 0), &none, &none));
    assert!(!Game::pos_is_okay((60, 20), &none, &none));
    assert!(Game::pos_is_okay((61, 21), &none, &none));
}

#[test]
fn pos_is_okay_rejects_countdown_readout_corner() {
    // The countdown readout occupies the top-right corner; both the
    // candidate's top-left corner and that corner offset by the target width
    // (x + 50, y) are held against it.
    let none: Vec<Target> = Vec::new();
    assert!(!Game::pos_is_okay((380, 10), &none, &none));
    assert!(!Game::pos_is_okay((430, 0), &none, &none));
    assert!(Game::pos_is_okay((369, 10), &none, &none));
    // A candidate whose own top-left corner sits in the countdown box is
    // rejected even where the offset corner has left the box.
    assert!(!Game::pos_is_okay((480, 10), &none, &none));
}

#[test]
fn pos_is_okay_rejects_overlap_with_either_collection() {
    let hero = vec![target_at(200, 100, 50, 50)];
    let evil = vec![target_at(300, 100, 50, 50)];
    assert!(!Game::pos_is_okay((210, 110), &hero, &evil));
    assert!(!Game::pos_is_okay((310, 110), &hero, &evil));
    assert!(Game::pos_is_okay((100, 200), &hero, &evil));
}

#[test]
fn coord_is_inside_is_half_open() {
    let t = target_at(10, 10, 20, 20);
    assert!(t.coord_is_inside(10, 10));
    assert!(t.coord_is_inside(29, 29));
    assert!(!t.coord_is_inside(30, 15));
    assert!(!t.coord_is_inside(15, 30));
    assert!(!t.coord_is_inside(9, 15));
}

#[test]
fn check_for_hit_returns_exactly_containing_indices() {
    let targets = vec![
        target_at(0, 100, 20, 20),
        target_at(100, 100, 20, 20),
        target_at(200, 100, 20, 20),
    ];
    let touches = vec![(105, 105), (205, 110)];
    let hits = Target::check_for_hit(&targets, &touches);
    assert_eq!(hits, vec![1, 2]);
}

#[test]
fn check_for_hit_repeats_index_per_matching_touch() {
    // Two touches inside the same target yield its index twice, in index
    // order; a target no touch lands in never appears.
    let targets = vec![target_at(0, 0, 200, 200), target_at(300, 0, 20, 20)];
    let touches = vec![(5, 5), (150, 150), (500, 500)];
    let hits = Target::check_for_hit(&targets, &touches);
    assert_eq!(hits, vec![0, 0]);
}

#[test]
fn check_for_hit_empty_inputs() {
    let targets: Vec<Target> = Vec::new();
    let touches = vec![(5, 5)];
    assert_eq!(Target::check_for_hit(&targets, &touches), Vec::<usize>::new());
    let targets = vec![target_at(0, 0, 20, 20)];
    let touches: Vec<(u16, u16)> = Vec::new();
    assert_eq!(Target::check_for_hit(&targets, &touches), Vec::<usize>::new());
}
