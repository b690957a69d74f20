use tower_defense::geometry::{checked_add, checked_sub, distance_squared, isqrt, reach_component, Vec3};
use tower_defense::timer::{Timer, TimerMode};
use tower_defense::world::{
    aim_at, nearest_target, Bullet, GameAssets, Health, Lifetime, Target, Tower, World,
    BULLET_LIFETIME, BULLET_SPEED,
};

fn v(x: i32, y: i32, z: i32) -> Vec3 {
    Vec3 { x, y, z }
}

fn target(x: i32, y: i32, z: i32) -> Target {
    Target::new(v(x, y, z), 0, None)
}

fn fires(t: &mut Timer, ticks: &[u64]) -> Vec<bool> {
    ticks.iter().map(|dt| t.tick(*dt)).collect()
}

#[test]
fn repeating_timer_fires_every_period_with_uniform_ticks() {
    let mut t = Timer::new(1000, TimerMode::Repeating);
    assert_eq!(fires(&mut t, &[250, 250, 250, 250, 250, 250, 250, 250]),
        vec![false, false, false, true, false, false, false, true]);
    assert_eq!(t.elapsed, 0);
}

#[test]
fn repeating_timer_fires_every_period_with_variable_ticks() {
    let mut t = Timer::new(1000, TimerMode::Repeating);
    assert_eq!(fires(&mut t, &[300, 600, 300, 900, 50, 850]), vec![false, false, true, true, false, true]);
    // 3000 ms accumulated: three firings, nothing left over.
    assert_eq!(t.elapsed, 0);
    assert!(t.finished());
}

#[test]
fn repeating_timer_fires_at_most_once_per_tick() {
    let mut t = Timer::new(1000, TimerMode::Repeating);
    assert!(t.tick(2500));
    assert_eq!(t.elapsed, 500);
    assert!(!t.tick(400));
    assert!(!t.finished());
}

#[test]
fn repeating_timer_of_zero_period_fires_every_tick() {
    let mut t = Timer::new(0, TimerMode::Repeating);
    assert_eq!(fires(&mut t, &[0, 5, 0]), vec![true, true, true]);
    assert_eq!(t.elapsed, 0);
}

#[test]
fn once_timer_fires_exactly_once() {
    let mut t = Timer::new(500, TimerMode::Once);
    assert_eq!(fires(&mut t, &[200, 200, 200, 200, 1000]), vec![false, false, true, false, false]);
    assert_eq!(t.elapsed, 500);
    assert!(t.finished());
}

#[test]
fn once_timer_saturates_at_its_duration() {
    let mut t = Timer::new(500, TimerMode::Once);
    assert!(t.tick(u64::MAX));
    assert_eq!(t.elapsed, 500);
    assert!(!t.tick(u64::MAX));
}

#[test]
fn repeating_timer_survives_huge_ticks() {
    let mut t = Timer::new(u64::MAX - 1, TimerMode::Repeating);
    assert!(!t.tick(u64::MAX - 2));
    assert!(t.tick(u64::MAX));
    let total: u128 = (u64::MAX - 2) as u128 + u64::MAX as u128;
    assert_eq!(t.elapsed as u128, total % ((u64::MAX - 1) as u128));
}

#[test]
fn isqrt_values() {
    assert_eq!(isqrt(0), 0);
    assert_eq!(isqrt(1), 1);
    assert_eq!(isqrt(15), 3);
    assert_eq!(isqrt(16), 4);
    assert_eq!(isqrt(4_040_000), 2009);
    assert_eq!(isqrt(u128::MAX), u64::MAX as u128);
}

#[test]
fn squared_distance_is_exact() {
    assert_eq!(distance_squared(v(1, 2, 3), v(4, 6, 3)), 25);
    assert_eq!(distance_squared(v(i32::MIN, i32::MIN, i32::MIN), v(i32::MAX, i32::MAX, i32::MAX)),
        3 * (u32::MAX as u128) * (u32::MAX as u128));
}

#[test]
fn checked_vector_arithmetic() {
    assert_eq!(checked_add(v(1, 2, 3), v(10, 20, 30)), Some(v(11, 22, 33)));
    assert_eq!(checked_add(v(i32::MAX, 0, 0), v(1, 0, 0)), None);
    assert_eq!(checked_sub(v(1, 2, 3), v(10, 20, 30)), Some(v(-9, -18, -27)));
    assert_eq!(checked_sub(v(0, i32::MIN, 0), v(0, 1, 0)), None);
}

#[test]
fn reach_is_the_real_distance_rounded_toward_zero() {
    // Direction (2000, -200, 0) has length 2009.975...: 3000 mm/s for 0.5 s
    // covers 1492.55 mm along x and -149.25 mm along y.
    let d2 = 2000 * 2000 + 200 * 200;
    assert_eq!(reach_component(2000, d2, 3000, 500), Some(1492));
    assert_eq!(reach_component(-200, d2, 3000, 500), Some(-149));
    assert_eq!(reach_component(0, d2, 3000, 500), Some(0));
    // Direction (1, 1, 1): each axis gets 1000 / sqrt(3) = 577.35 mm per second.
    assert_eq!(reach_component(1, 3, 1000, 1000), Some(577));
    assert_eq!(reach_component(-1, 3, 1000, 1000), Some(-577));
    // A sweep of 2^64 or more is out of range.
    assert_eq!(reach_component(i32::MIN, 1u128 << 62, u32::MAX, u64::MAX), None);
}

#[test]
fn nearest_target_is_the_closest() {
    let ts = vec![target(3000, 0, 0), target(0, 0, 1500), target(1000, 1000, 0), target(-2000, 0, 0)];
    assert_eq!(nearest_target(v(0, 0, 0), &ts), Some(2));
    assert_eq!(nearest_target(v(-1500, 0, 0), &ts), Some(3));
}

#[test]
fn nearest_target_breaks_ties_by_first() {
    let ts = vec![target(1000, 0, 0), target(-1000, 0, 0), target(0, 1000, 0)];
    assert_eq!(nearest_target(v(0, 0, 0), &ts), Some(0));
}

#[test]
fn nearest_target_of_none_is_none() {
    assert_eq!(nearest_target(v(0, 0, 0), &vec![]), None);
}

#[test]
fn aim_points_from_spawn_to_nearest_target() {
    let tower = Tower {
        position: v(0, 0, 0),
        shooting_timer: Timer::new(1000, TimerMode::Repeating),
        bullet_offset: v(0, 200, 500),
    };
    let ts = vec![target(5000, 0, 0), target(2000, 0, 500)];
    assert_eq!(aim_at(&tower, &ts, None), Some((v(0, 200, 500), v(2000, -200, 0))));
    assert_eq!(aim_at(&tower, &vec![], None), None);
    // A target on the spawn point gives no direction, so no shot.
    assert_eq!(aim_at(&tower, &vec![target(0, 200, 500), target(9000, 0, 0)], None), None);
}

#[test]
fn target_drifts_along_x() {
    let mut t = Target::new(v(0, 5, 6), -1500, Some(Health { value: 3 }));
    t.advance(1000);
    assert_eq!(t.position, v(-1500, 5, 6));
    assert_eq!(t.drifted, 1000);
    let mut slow = Target::new(v(0, 0, 0), 1, None);
    slow.advance(999);
    assert_eq!(slow.position, v(0, 0, 0));
    slow.advance(1);
    assert_eq!(slow.position, v(1, 0, 0));
    let mut edge = Target::new(v(i32::MAX, 0, 0), 1000, None);
    edge.advance(1000);
    assert_eq!(edge.position, v(i32::MAX, 0, 0));
    assert_eq!(edge.drifted, 0);
}

fn bullet(direction: Vec3, speed: u32) -> Bullet {
    Bullet {
        id: 0,
        position: v(0, 0, 0),
        direction,
        speed,
        lifetime: Lifetime { timer: Timer::new(500, TimerMode::Once) },
        scene: 0,
        origin: v(0, 0, 0),
        flown: 0,
    }
}

#[test]
fn bullet_moves_along_normalized_direction() {
    // Direction of length 5 scaled to unit length: 3/5 and 4/5 of 2000 mm.
    let mut b = bullet(v(3, 4, 0), 1000);
    b.advance(2000);
    assert_eq!(b.position, v(1200, 1600, 0));
    // The length of the direction does not change the distance covered.
    let mut c = bullet(v(300, 400, 0), 1000);
    c.advance(2000);
    assert_eq!(c.position, v(1200, 1600, 0));
}

#[test]
fn bullet_with_zero_direction_stays_put() {
    let mut b = bullet(v(0, 0, 0), 3000);
    b.advance(1000);
    assert_eq!(b.position, v(0, 0, 0));
}

#[test]
fn bullet_leaving_the_range_stays_put() {
    let mut b = bullet(v(1, 0, 0), u32::MAX);
    b.advance(u64::MAX);
    assert_eq!(b.position, v(0, 0, 0));
}

fn scenario_world() -> World {
    let mut w = World::new(GameAssets { bullet_scene: 7, fallback_direction: None });
    w.add_tower(v(0, 0, 0), v(0, 200, 500), 1000);
    w.add_target(v(2000, 0, 500), 0, Some(Health { value: 3 }));
    w
}

#[test]
fn tower_fires_once_at_one_second_toward_the_target() {
    let mut w = scenario_world();
    w.tick(500);
    assert!(w.bullets.is_empty());
    w.tick(500);
    assert_eq!(w.bullets.len(), 1);
    let b = w.bullets[0];
    assert_eq!(b.id, 0);
    assert_eq!(b.direction, v(2000, -200, 0));
    assert_eq!(b.speed, BULLET_SPEED);
    assert_eq!(b.scene, 7);
    // Spawned at (0, 200, 500) and already moved on the tick it was fired.
    assert_eq!(b.position, v(1492, 51, 500));
    w.tick(500);
    assert_eq!(w.bullets.len(), 1);
    assert_eq!(w.bullets[0].position, v(2985, -98, 500));
    assert_eq!(w.bullets[0].lifetime.timer.elapsed, 1000);
    assert_eq!(w.bullets[0].lifetime.timer.duration, BULLET_LIFETIME);
    assert_eq!(w.next_id, 1);
}

#[test]
fn no_targets_means_no_bullets() {
    let mut w = World::new(GameAssets { bullet_scene: 1, fallback_direction: None });
    w.add_tower(v(0, 0, 0), v(0, 200, 500), 1000);
    w.add_tower(v(5000, 0, 0), v(0, 0, 0), 300);
    for _ in 0..50 {
        w.tick(700);
        assert!(w.bullets.is_empty());
    }
    assert_eq!(w.next_id, 0);
}

#[test]
fn bullet_expires_when_lifetime_runs_out() {
    let mut w = World::new(GameAssets { bullet_scene: 1, fallback_direction: None });
    let id = w.spawn_bullet(v(0, 0, 0), v(1, 0, 0), 0, 500).unwrap();
    w.tick(300);
    assert!(w.find_bullet(id).is_some());
    w.tick(300);
    assert!(w.find_bullet(id).is_none());
    assert!(w.bullets.is_empty());
}

#[test]
fn despawned_bullet_is_never_found_again() {
    let mut w = World::new(GameAssets { bullet_scene: 1, fallback_direction: None });
    let short = w.spawn_bullet(v(0, 0, 0), v(1, 0, 0), 1000, 100).unwrap();
    let long = w.spawn_bullet(v(0, 0, 0), v(0, 1, 0), 1000, 10_000).unwrap();
    assert_ne!(short, long);
    w.bullet_despawn(100);
    for _ in 0..5 {
        assert_eq!(w.find_bullet(short), None);
        w.tick(10);
    }
    let kept = w.find_bullet(long).unwrap();
    assert_eq!(kept.lifetime.timer.elapsed, 150);
    assert_eq!(w.find_bullet(12345), None);
}

#[test]
fn spawn_bullet_hands_out_increasing_ids() {
    let mut w = World::new(GameAssets { bullet_scene: 9, fallback_direction: None });
    assert_eq!(w.spawn_bullet(v(0, 0, 0), v(1, 0, 0), 1, 10), Some(0));
    assert_eq!(w.spawn_bullet(v(0, 0, 0), v(1, 0, 0), 1, 10), Some(1));
    w.next_id = u64::MAX;
    assert_eq!(w.spawn_bullet(v(0, 0, 0), v(1, 0, 0), 1, 10), None);
    assert_eq!(w.bullets.len(), 2);
    assert_eq!(w.bullets[1].scene, 9);
}

#[test]
fn each_tower_fires_at_its_own_nearest_target() {
    let mut w = World::new(GameAssets { bullet_scene: 0, fallback_direction: None });
    w.add_tower(v(0, 0, 0), v(0, 0, 0), 1000);
    w.add_tower(v(10_000, 0, 0), v(0, 0, 0), 500);
    w.add_target(v(-1000, 0, 0), 0, None);
    w.add_target(v(12_000, 0, 0), 0, None);
    w.tower_shooting(500);
    assert_eq!(w.bullets.len(), 1);
    assert_eq!(w.bullets[0].direction, v(2000, 0, 0));
    assert_eq!(w.bullets[0].position, v(10_000, 0, 0));
    w.tower_shooting(500);
    assert_eq!(w.bullets.len(), 3);
    assert_eq!(w.bullets[1].direction, v(-1000, 0, 0));
    assert_eq!(w.bullets[1].id, 1);
    assert_eq!(w.bullets[2].id, 2);
}

#[test]
fn targets_move_during_a_tick() {
    let mut w = World::new(GameAssets { bullet_scene: 0, fallback_direction: None });
    w.add_target(v(-4000, 200, 1500), 1000, Some(Health { value: 3 }));
    w.move_targets(250);
    assert_eq!(w.targets[0].position, v(-3750, 200, 1500));
    w.tick(750);
    assert_eq!(w.targets[0].position, v(-3000, 200, 1500));
}

#[test]
fn move_bullets_moves_every_bullet() {
    let mut w = World::new(GameAssets { bullet_scene: 0, fallback_direction: None });
    w.spawn_bullet(v(0, 0, 0), v(0, 0, 5), 2000, 10_000);
    w.spawn_bullet(v(100, 0, 0), v(-1, 0, 0), 1000, 10_000);
    w.move_bullets(500);
    assert_eq!(w.bullets[0].position, v(0, 0, 1000));
    assert_eq!(w.bullets[1].position, v(-400, 0, 0));
    assert_eq!(w.bullets[0].lifetime.timer.elapsed, 0);
}

#[test]
fn fallback_direction_is_used_only_without_targets() {
    let tower = Tower {
        position: v(0, 0, 0),
        shooting_timer: Timer::new(1000, TimerMode::Repeating),
        bullet_offset: v(0, 200, 500),
    };
    let ahead = Some(v(0, 0, 1));
    assert_eq!(aim_at(&tower, &vec![], ahead), Some((v(0, 200, 500), v(0, 0, 1))));
    assert_eq!(aim_at(&tower, &vec![target(2000, 0, 500)], ahead), Some((v(0, 200, 500), v(2000, -200, 0))));
    assert_eq!(aim_at(&tower, &vec![], Some(v(0, 0, 0))), None);
}

#[test]
fn tower_with_fallback_fires_without_targets() {
    let mut w = World::new(GameAssets { bullet_scene: 2, fallback_direction: Some(v(1, 0, 0)) });
    w.add_tower(v(0, 0, 0), v(0, 200, 500), 1000);
    w.tick(1000);
    assert_eq!(w.bullets.len(), 1);
    assert_eq!(w.bullets[0].direction, v(1, 0, 0));
    // Fired from (0, 200, 500) and moved 3000 mm/s for one second on the same tick.
    assert_eq!(w.bullets[0].position, v(3000, 200, 500));
}

#[test]
fn bullet_speed_does_not_depend_on_direction_length() {
    let mut short = bullet(v(1, 1, 1), 1000);
    let mut long = bullet(v(1000, 1000, 1000), 1000);
    short.advance(1000);
    long.advance(1000);
    assert_eq!(short.position, v(577, 577, 577));
    assert_eq!(long.position, v(577, 577, 577));
}

#[test]
fn bullet_motion_does_not_depend_on_tick_length() {
    let mut split = bullet(v(1, 0, 0), 999);
    split.advance(1);
    assert_eq!(split.position, v(0, 0, 0));
    split.advance(1);
    let mut whole = bullet(v(1, 0, 0), 999);
    whole.advance(2);
    assert_eq!(split.position, v(1, 0, 0));
    assert_eq!(split, whole);
    let mut frames = bullet(v(2000, -200, 0), 3000);
    for _ in 0..125 {
        frames.advance(8);
    }
    let mut once = bullet(v(2000, -200, 0), 3000);
    once.advance(1000);
    assert_eq!(frames.position, once.position);
    assert_eq!(once.position, v(2985, -298, 0));
}

#[test]
fn target_motion_does_not_depend_on_tick_length() {
    let mut t = Target::new(v(0, 0, 0), 999, None);
    t.advance(1);
    t.advance(1);
    assert_eq!(t.position, v(1, 0, 0));
    let mut slow = Target::new(v(0, 0, 0), 50, None);
    for _ in 0..1000 {
        slow.advance(16);
    }
    assert_eq!(slow.position, v(800, 0, 0));
}

#[test]
fn turning_a_bullet_starts_a_new_leg() {
    let mut b = bullet(v(1, 0, 0), 1000);
    b.advance(500);
    assert_eq!(b.position, v(500, 0, 0));
    b.set_direction(v(0, 1, 1));
    assert_eq!(b.origin, v(500, 0, 0));
    assert_eq!(b.flown, 0);
    b.advance(1000);
    assert_eq!(b.position, v(500, 707, 707));
}

#[test]
fn tower_fires_once_per_period_with_variable_ticks() {
    let mut w = scenario_world();
    let mut counts = Vec::new();
    for dt in [300u64, 600, 300, 900, 50, 850] {
        w.tower_shooting(dt);
        counts.push(w.bullets.len());
    }
    assert_eq!(counts, vec![0, 0, 1, 2, 2, 3]);
    assert_eq!(w.towers[0].shooting_timer.elapsed, 0);
}

#[test]
fn bullet_lives_exactly_its_lifetime_over_many_ticks() {
    let mut w = World::new(GameAssets { bullet_scene: 0, fallback_direction: None });
    let id = w.spawn_bullet(v(0, 0, 0), v(1, 0, 0), 0, 1000).unwrap();
    for _ in 0..9 {
        w.bullet_despawn(111);
        assert!(w.find_bullet(id).is_some());
    }
    w.bullet_despawn(5000);
    assert_eq!(w.find_bullet(id), None);
    w.bullet_despawn(5000);
    assert_eq!(w.find_bullet(id), None);
}

#[test]
fn writing_a_bullet_direction_directly_turns_it_where_it_is() {
    let mut w = World::new(GameAssets { bullet_scene: 0, fallback_direction: None });
    w.spawn_bullet(v(0, 0, 0), v(1, 0, 0), 3000, 10_000);
    w.move_bullets(1000);
    assert_eq!(w.bullets[0].position, v(3000, 0, 0));
    w.bullets[0].direction = v(0, 1, 0);
    w.move_bullets(0);
    assert_eq!(w.bullets[0].position, v(3000, 0, 0));
    w.move_bullets(1000);
    assert_eq!(w.bullets[0].position, v(3000, 3000, 0));
}

#[test]
fn writing_a_target_position_directly_moves_it_from_there() {
    let mut w = World::new(GameAssets { bullet_scene: 0, fallback_direction: None });
    w.add_target(v(0, 0, 0), 1000, None);
    w.move_targets(500);
    assert_eq!(w.targets[0].position, v(500, 0, 0));
    w.targets[0].position = v(5000, 7, 8);
    w.move_targets(0);
    assert_eq!(w.targets[0].position, v(5000, 7, 8));
    w.move_targets(250);
    assert_eq!(w.targets[0].position, v(5250, 7, 8));
}

#[test]
fn zero_tick_moves_nothing() {
    let mut b = bullet(v(2000, -200, 0), 3000);
    b.advance(333);
    let p = b.position;
    b.position = v(1, 2, 3);
    b.advance(0);
    assert_eq!(b.position, v(1, 2, 3));
    assert_ne!(p, b.position);
    let mut t = Target::new(v(0, 0, 0), 999, None);
    t.advance(0);
    assert_eq!(t.position, v(0, 0, 0));
}

#[test]
fn tower_fires_when_accumulated_time_crosses_a_period() {
    let mut w = scenario_world();
    let mut counts = Vec::new();
    for dt in [2500u64, 400, 100, 999, 1] {
        w.tower_shooting(dt);
        counts.push(w.bullets.len());
    }
    assert_eq!(counts, vec![1, 1, 2, 2, 3]);
    assert_eq!(w.towers[0].shooting_timer.elapsed, 0);
}
