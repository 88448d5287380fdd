use raycaster::math::{distance, isqrt, line_point};
use raycaster::player::{Input, Player};
use raycaster::walls::{ClipPolicy, Line, Point, Rotation, World, ROT_SCALE, TURN_COS, TURN_SIN, UNIT};

fn pt(x: i64, y: i64) -> Point {
    Point::new(x, y)
}

fn seg(x1: i64, y1: i64, x2: i64, y2: i64) -> Line {
    Line::new_line(pt(x1, y1), pt(x2, y2))
}

fn no_keys() -> Input {
    Input { left: false, right: false, forward: false, back: false, turn_left: false, turn_right: false }
}

#[test]
fn isqrt_exact_and_rounded_down() {
    assert_eq!(isqrt(0), 0);
    assert_eq!(isqrt(1), 1);
    assert_eq!(isqrt(15), 3);
    assert_eq!(isqrt(16), 4);
    assert_eq!(isqrt(1_000_000_000_000_000_000), 1_000_000_000);
}

#[test]
fn distance_is_euclidean() {
    assert_eq!(distance(&pt(0, 0), &pt(3000, 4000)), 5000);
    assert_eq!(distance(&pt(3000, 4000), &pt(0, 0)), 5000);
    assert_eq!(distance(&pt(0, 0), &pt(1000, 1000)), 1414);
    assert_eq!(distance(&pt(-7, 2), &pt(-7, 2)), 0);
}

#[test]
fn point_on_segment_within_tolerance() {
    let l = seg(0, 0, 10_000, 0);
    assert!(line_point(&l, &pt(5000, 0)));
    assert!(line_point(&l, &pt(0, 0)));
    assert!(line_point(&l, &pt(10_000, 0)));
    assert!(line_point(&l, &pt(10_200, 0)));
    assert!(!line_point(&l, &pt(10_400, 0)));
    assert!(!line_point(&l, &pt(5000, 3000)));
    assert!(!line_point(&l, &pt(-20_000, 0)));
}

#[test]
fn interpolated_point_is_on_slanted_segment() {
    let l = seg(10_000, 480_000, 740_000, 890_000);
    // a quarter of the way from the first end to the second
    assert!(line_point(&l, &pt(192_500, 582_500)));
    assert!(line_point(&l, &pt(375_000, 685_000)));
}

#[test]
fn point_past_the_end_is_off_segment() {
    let l = seg(10_000, 480_000, 740_000, 890_000);
    // two units past the second end, along the segment
    assert!(!line_point(&l, &pt(741_744, 890_980)));
    assert!(!line_point(&l, &pt(8_256, 479_020)));
}

#[test]
fn collision_gives_push_to_nearest_point() {
    let mut p = Player::init();
    p.proj_x = 0;
    p.proj_y = 0;
    assert_eq!(p.wall_collision(seg(-50_000, -10_000, 50_000, -10_000)), (true, 0, -10_000));
    assert_eq!(p.wall_collision(seg(-50_000, -20_000, 50_000, -20_000)), (false, 0, 0));
    // the nearest point of the line lies beyond the segment
    assert_eq!(p.wall_collision(seg(30_000, -10_000, 80_000, -10_000)), (false, 0, 0));
}

#[test]
fn degenerate_wall_never_collides() {
    let p = Player::init();
    assert_eq!(p.wall_collision(seg(1000, 1000, 1000, 1000)), (false, 0, 0));
    assert_eq!(p.wall_collision(seg(0, 0, 0, 0)), (false, 0, 0));
}

#[test]
fn last_colliding_wall_wins() {
    let p = Player::init();
    let w = World { vec: vec![seg(-50_000, -10_000, 50_000, -10_000), seg(12_000, -50_000, 12_000, 50_000), seg(-90_000, 90_000, -80_000, 90_000)] };
    assert_eq!(p.collide_all(&w), Some((12_000, 0)));
}

#[test]
fn far_circle_meets_no_wall_of_initial_world() {
    let p = Player::init();
    assert_eq!(p.collide_all(&World::init()), None);
    let w = World { vec: vec![seg(-50_000, -20_000, 50_000, -20_000), seg(16_000, -5_000, 16_000, 5_000)] };
    assert_eq!(p.collide_all(&w), None);
}

#[test]
fn step_without_keys_changes_nothing() {
    let mut p = Player::init();
    let mut w = World::init();
    p.move_player(&no_keys(), &mut w, 16_000);
    assert_eq!(p.velocity, (0, 0));
    assert!(p.can_move);
    assert_eq!(w.vec, World::init().vec);
}

#[test]
fn step_forward_moves_world() {
    let mut p = Player::init();
    let mut w = World::init();
    let mut input = no_keys();
    input.forward = true;
    p.move_player(&input, &mut w, 16_000);
    assert_eq!(p.velocity, (0, 4800));
    assert_eq!((p.proj_x, p.proj_y), (0, -4800));
    assert!(p.can_move);
    assert_eq!(w.vec[0], seg(15_000, 19_800, 10_000, 484_800));
}

#[test]
fn step_sideways_and_back() {
    let mut p = Player::init();
    let mut w = World { vec: vec![seg(100_000, 100_000, 200_000, 100_000)] };
    let mut input = no_keys();
    input.left = true;
    input.right = true;
    input.back = true;
    p.move_player(&input, &mut w, 10_000);
    assert_eq!(p.velocity, (-3000, -3000));
    assert_eq!(w.vec[0], seg(97_000, 97_000, 197_000, 97_000));
}

#[test]
fn head_on_approach_is_pushed_back() {
    // the wall from (10, 480) to (740, 890), moved to 17 units from the player
    let wall = seg(-356_675, -219_822, 373_325, 190_178);
    let mut p = Player::init();
    p.proj_x = 0;
    p.proj_y = 0;
    assert_eq!(p.wall_collision(wall), (false, 0, 0));
    let mut w = World { vec: vec![wall] };
    let mut input = no_keys();
    input.forward = true;
    p.move_player(&input, &mut w, 16_000);
    assert_eq!((p.proj_x, p.proj_y), (0, -4800));
    assert!(!p.can_move);
    assert_eq!(p.velocity, (392, -699));
    // the wall moves along its normal, away from the player
    assert!(p.velocity.0 * 410 - p.velocity.1 * 730 > 0);
    assert_eq!(w.vec[0], seg(-356_283, -220_521, 373_717, 189_479));
}

#[test]
fn translate_and_back_restores_world() {
    let mut w = World::init();
    w.translate(12_345, -678);
    assert_eq!(w.vec[1], seg(22_345, 479_322, 752_345, 889_322));
    w.translate(-12_345, 678);
    assert_eq!(w.vec, World::init().vec);
}

#[test]
fn rotate_quarter_turn_exact() {
    let mut a = pt(1000, 0);
    a.rotate(&Rotation { cos: 0, sin: ROT_SCALE });
    assert_eq!(a, pt(0, 1000));
    a.rotate(&Rotation { cos: 0, sin: -ROT_SCALE });
    assert_eq!(a, pt(1000, 0));
}

#[test]
fn rotate_and_back_is_close() {
    let turn = Rotation { cos: TURN_COS, sin: TURN_SIN };
    let mut a = pt(123_456, -654_321);
    a.rotate(&turn);
    assert_eq!(a, pt(126_726, -653_696));
    a.rotate(&turn.inverse());
    assert_eq!(a, pt(123_455, -654_322));
}

#[test]
fn world_rotation_turns_the_other_way() {
    let mut w = World { vec: vec![seg(1000, 0, 0, 1000)] };
    w.rotate(&Rotation { cos: 0, sin: ROT_SCALE });
    assert_eq!(w.vec[0], seg(0, -1000, 1000, 0));
}

#[test]
fn turning_left_rotates_world() {
    let mut p = Player::init();
    let mut w = World { vec: vec![seg(1_000_000, 0, 1_000_000, 10)] };
    let mut input = no_keys();
    input.turn_left = true;
    p.move_player(&input, &mut w, 0);
    assert_eq!(w.vec[0].p1, pt(999_987, 5000));
}

#[test]
fn clip_classifies_walls() {
    let mut p = Player::init();
    p.clip_depth = 10 * UNIT;
    let w = World { vec: vec![seg(0, 0, 5000, 5000), seg(0, 20_000, 5000, 30_000), seg(0, 0, 10_000, 20_000)] };
    let kept = w.clip_walls(&p, ClipPolicy::Clip);
    assert_eq!(kept, vec![seg(0, 0, 5000, 5000), seg(0, 0, 5000, 10_000)]);
    let kept = w.clip_walls(&p, ClipPolicy::Discard);
    assert_eq!(kept, vec![seg(0, 0, 5000, 5000)]);
}

#[test]
fn clip_line_keeps_near_end() {
    let mut p = Player::init();
    p.clip_depth = 10 * UNIT;
    assert_eq!(seg(10_000, 20_000, 0, 0).clip_line(&p), seg(0, 0, 5000, 10_000));
    assert_eq!(seg(-3000, 4000, 3000, 16_000).clip_line(&p), seg(-3000, 4000, 0, 10_000));
}

#[test]
fn projection_scales_by_depth() {
    assert_eq!(pt(1000, 1000).to_draw(), Some(pt(1360, 36_000)));
    assert_eq!(pt(-1000, 2000).to_draw(), Some(pt(280, 18_000)));
    assert_eq!(pt(1000, 0).to_draw(), None);
    assert_eq!(pt(1000, -5).to_draw(), None);
}

#[test]
fn wall_face_has_four_edges() {
    let l = seg(1000, 1000, -1000, 2000);
    let edges = l.draw_line().unwrap();
    assert_eq!(edges, vec![
        seg(1360, 36_360, 280, 18_360),
        seg(1360, -35_640, 280, -17_640),
        seg(1360, -35_640, 1360, 36_360),
        seg(280, -17_640, 280, 18_360),
    ]);
    assert_eq!(seg(1000, 1000, 0, 0).draw_line(), None);
}

#[test]
fn draw_map_projects_kept_walls() {
    let mut p = Player::init();
    p.clip_depth = 10 * UNIT;
    let w = World { vec: vec![seg(1000, 1000, -1000, 2000), seg(0, 20_000, 5000, 30_000), seg(0, -100, 10, 500)] };
    let edges = w.draw_map(&p, ClipPolicy::Clip);
    assert_eq!(edges.len(), 4);
    assert_eq!(edges[0], seg(1360, 36_360, 280, 18_360));
}

#[test]
fn initial_world_layout() {
    let w = World::init();
    assert_eq!(w.vec.len(), 7);
    assert_eq!(w.vec[1], seg(10_000, 480_000, 740_000, 890_000));
    assert!(w.within(1_000_000_000));
    assert!(!w.within(1_000_000));
}

#[test]
fn world_construction_rejects_degenerate_walls() {
    assert!(World::from_lines(vec![seg(0, 0, 1000, 0), seg(5, 5, 5, 5)]).is_none());
    assert!(World::from_lines(vec![seg(0, 0, 1_000_000_000_000, 0)]).is_none());
    let w = World::from_lines(vec![seg(0, 0, 1000, 0)]).unwrap();
    assert_eq!(w.vec, vec![seg(0, 0, 1000, 0)]);
}

#[test]
fn initial_player() {
    let p = Player::init();
    assert_eq!(p.radius, 15_000);
    assert_eq!(p.speed, 300_000);
    assert_eq!(p.damping, 16);
    assert!(p.can_move);
}
