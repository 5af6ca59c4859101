use rectangel::math::{ceil_sqrt, clamp_pos, mag_sq_exec, rescale, Vec2i};
use rectangel::rng::RandomSource;
use rectangel::sim::{enemy_draw_color, limit_speed, player_draw_color};
use rectangel::store::{ColorKind, Nommer, World};

#[test]
fn ceil_sqrt_exact_values() {
    assert_eq!(ceil_sqrt(0), 0);
    assert_eq!(ceil_sqrt(1), 1);
    assert_eq!(ceil_sqrt(2), 2);
    assert_eq!(ceil_sqrt(4), 2);
    assert_eq!(ceil_sqrt(9_000_000), 3000);
    assert_eq!(ceil_sqrt(9_000_001), 3001);
}

#[test]
fn rescale_shortens_to_the_requested_length() {
    let v = rescale(Vec2i { x: 3000, y: 4000 }, 1000);
    assert_eq!((v.x, v.y), (600, 800));
    let z = rescale(Vec2i { x: 0, y: 0 }, 1000);
    assert_eq!((z.x, z.y), (0, 0));
    let n = rescale(Vec2i { x: -3000, y: 4000 }, 500);
    assert_eq!((n.x, n.y), (-300, 400));
}

#[test]
fn limit_speed_caps_magnitude_only_when_over() {
    let kept = limit_speed(Vec2i { x: 6000, y: 8000 });
    assert_eq!((kept.x, kept.y), (6000, 8000));
    let cut = limit_speed(Vec2i { x: 30_000, y: 40_000 });
    assert_eq!((cut.x, cut.y), (6000, 8000));
    assert!(mag_sq_exec(cut) <= 100_000_000);
}

#[test]
fn clamp_pos_pins_to_the_arena() {
    let c = clamp_pos(Vec2i { x: 900_000, y: -500_000 });
    assert_eq!((c.x, c.y), (640_000, -360_000));
    let inside = clamp_pos(Vec2i { x: 5, y: -7 });
    assert_eq!((inside.x, inside.y), (5, -7));
}

#[test]
fn random_source_is_deterministic_from_its_seed() {
    let mut a = RandomSource::from_seed(12345);
    let mut b = RandomSource::from_seed(12345);
    for _ in 0..10 {
        assert_eq!(a.next_u64(), b.next_u64());
    }
    let mut c = RandomSource::from_seed(1);
    for _ in 0..100 {
        let d = c.between(-1000, 1000);
        assert!((-1000..=1000).contains(&d));
    }
}

#[test]
fn store_creates_destroys_and_queries() {
    let mut w = World::new();
    let a = w.create();
    let b = w.create();
    assert_eq!(w.get(a).nommer, None);
    w.attach_nommer(a, Nommer { size: 1, i_frames: 0, powerup_remaining: 0 });
    assert!(w.get(a).nommer.is_some());
    w.destroy(a);
    assert!(w.slots[a].is_none());
    let ids = w.live_ids();
    assert_eq!(ids, vec![b]);
}

#[test]
fn draw_colors_follow_the_timer_rules() {
    let calm = Nommer { size: 10, i_frames: 0, powerup_remaining: 0 };
    assert_eq!(player_draw_color(calm, ColorKind::White), ColorKind::White);
    let hurt = Nommer { i_frames: 6, ..calm };
    assert_eq!(player_draw_color(hurt, ColorKind::White), ColorKind::Red);
    let powered = Nommer { powerup_remaining: 21, i_frames: 6, ..calm };
    assert_eq!(player_draw_color(powered, ColorKind::White), ColorKind::Green);
    assert_eq!(enemy_draw_color(2, 10, ColorKind::Blue), ColorKind::Blue);
    assert_eq!(enemy_draw_color(9, 10, ColorKind::Blue), ColorKind::TooBig);
}
