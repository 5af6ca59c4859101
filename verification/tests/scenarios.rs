use rectangel::math::Vec2i;
use rectangel::rng::RandomSource;
use rectangel::sim::GameState;
use rectangel::store::{Nommer, Role};

fn fresh(seed: u64) -> GameState {
    let mut s = GameState::new(640_000, 360_000, RandomSource::from_seed(seed));
    // keep the schedulers quiet for a while
    s.enemy_spawn_timer = 100_000;
    s.powerup_timer = 100_000;
    s
}

fn add_enemy(s: &mut GameState, pos: Vec2i, size: u32) -> usize {
    let id = s.world.create();
    s.world.attach_role(id, Role::Enemy);
    s.world.attach_pos(id, pos);
    s.world.attach_nommer(id, Nommer { size, i_frames: 0, powerup_remaining: 0 });
    s.world.attach_vel(id, Vec2i { x: 0, y: 0 });
    id
}

#[test]
fn small_enemy_is_eaten_and_player_grows() {
    let mut s = fresh(7);
    let p = s.world.get(s.player).pos.unwrap();
    let e = add_enemy(&mut s, p, 2);
    s.update(640_000, 360_000);
    assert!(s.world.slots[e].is_none());
    assert_eq!(s.world.get(s.player).nommer.unwrap().size, 16);
    assert!(!s.game_over);
}

#[test]
fn big_enemy_shrinks_player_to_game_over() {
    let mut s = fresh(9);
    let mut nm = s.world.get(s.player).nommer.unwrap();
    nm.size = 8;
    s.world.attach_nommer(s.player, nm);
    let p = s.world.get(s.player).pos.unwrap();
    add_enemy(&mut s, p, 20);
    s.update(640_000, 360_000);
    let after = s.world.get(s.player).nommer.unwrap();
    assert_eq!(after.size, 6);
    assert!(s.game_over);
    assert_eq!(s.restart_timer, 120);
}

#[test]
fn powerup_collection_sets_duration_and_blocks_growth() {
    let mut s = fresh(3);
    let p = s.world.get(s.player).pos.unwrap();
    let pu = s.world.create();
    s.world.attach_role(pu, Role::Powerup);
    s.world.attach_pos(pu, p);
    s.powerup_timer = 100_000;
    s.update(640_000, 360_000);
    assert!(s.world.slots[pu].is_none());
    // the collected window is intact at the end of the collection tick
    assert_eq!(s.world.get(s.player).nommer.unwrap().powerup_remaining, 240);
    // while powered, eating destroys the enemy without growth
    let p2 = s.world.get(s.player).pos.unwrap();
    let e = add_enemy(&mut s, p2, 2);
    s.update(640_000, 360_000);
    assert!(s.world.slots[e].is_none());
    assert_eq!(s.world.get(s.player).nommer.unwrap().size, 14);
    // once the power-up has run out, growth resumes
    let mut nm = s.world.get(s.player).nommer.unwrap();
    nm.powerup_remaining = 0;
    s.world.attach_nommer(s.player, nm);
    let p3 = s.world.get(s.player).pos.unwrap();
    let e2 = add_enemy(&mut s, p3, 2);
    s.update(640_000, 360_000);
    assert!(s.world.slots[e2].is_none());
    assert_eq!(s.world.get(s.player).nommer.unwrap().size, 16);
}

#[test]
fn spawn_timer_fires_a_batch_of_fresh_enemies() {
    let mut s = fresh(42);
    s.enemy_spawn_timer = 0;
    s.update(640_000, 360_000);
    let mut n_enemies = 0;
    for i in 0..s.world.slots.len() {
        if let Some(c) = s.world.slots[i] {
            if c.role == Some(Role::Enemy) {
                n_enemies += 1;
                let nm = c.nommer.unwrap();
                assert_eq!(nm.size, 2);
                assert_eq!(nm.i_frames, 0);
                let v = c.vel.unwrap();
                assert_eq!((v.x, v.y), (0, 0));
                let q = c.pos.unwrap();
                assert!(q.x.abs() <= 640_000 && q.y.abs() <= 360_000);
            }
        }
    }
    assert!((6..=14).contains(&n_enemies));
    assert!((239..=420).contains(&s.enemy_spawn_timer));
}

#[test]
fn restart_after_game_over_matches_a_fresh_session() {
    let mut s = fresh(5);
    s.game_over = true;
    s.restart_timer = 0;
    s.update(640_000, 360_000);
    assert_eq!(s.tick, 0);
    assert!(!s.game_over);
    assert_eq!(s.powerup_timer, 600);
    assert_eq!(s.enemy_spawn_timer, 0);
    assert_eq!(s.world.slots.len(), 1);
    let c = s.world.slots[0].unwrap();
    assert_eq!(c.role, Some(Role::Player));
    assert_eq!(c.nommer.unwrap().size, 14);
}

#[test]
fn two_enemies_eaten_in_one_tick_grow_the_player_twice() {
    let mut s = fresh(21);
    let p = s.world.get(s.player).pos.unwrap();
    let e1 = add_enemy(&mut s, p, 2);
    let e2 = add_enemy(&mut s, p, 3);
    s.update(640_000, 360_000);
    assert!(s.world.slots[e1].is_none());
    assert!(s.world.slots[e2].is_none());
    assert_eq!(s.world.get(s.player).nommer.unwrap().size, 18);
}

#[test]
fn separation_pushes_overlapping_oversized_enemies_apart() {
    let mut s = fresh(23);
    let e1 = add_enemy(&mut s, Vec2i { x: 500_000, y: 200_000 }, 25);
    let e2 = add_enemy(&mut s, Vec2i { x: 501_000, y: 200_000 }, 25);
    s.separation_step(14);
    // gap vector (-69000, -70000), length 98291 (rounded up), scaled by
    // one hundredth onto the center difference (-1000, 0) and (1000, 0)
    let v1 = s.world.get(e1).vel.unwrap();
    assert_eq!((v1.x, v1.y), (-982, 0));
    let v2 = s.world.get(e2).vel.unwrap();
    assert_eq!((v2.x, v2.y), (982, 0));
    // positions are untouched by the separation pass
    assert_eq!(s.world.get(e1).pos.unwrap(), Vec2i { x: 500_000, y: 200_000 });
}
