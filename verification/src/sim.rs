//! The per-tick simulation: movement and steering, separation, consumption,
//! and the lifecycle scheduler, all over the entity store.

use vstd::prelude::*;
use crate::math::{
    Vec2i, mag_sq, small, in_bounds, clamped, rescaled_coord, mag_sq_exec, rescale, clamp_pos,
    SCALE, ARENA_HALF_X, ARENA_HALF_Y, COORD_CAP,
};
use crate::rng::RandomSource;
use crate::store::{World, Components, Role, Nommer, Visual, ColorKind, no_components};

verus! {

pub const NOM_GROWTH: u32 = 2;

pub const ENEMY_INIT_SIZE: u32 = 2;

pub const ENEMY_MAX_SIZE: u32 = 25;

/// Stored (milli) units per tick.
pub const ENEMY_MAX_SPEED: i64 = 10 * 1000;

pub const ENEMY_SPEED: i64 = 1500;

pub const PLAYER_MIN_SIZE: u32 = 8;

pub const PLAYER_INIT_SIZE: u32 = 14;

pub const PLAYER_MAX_SIZE: u32 = 20;

pub const PLAYER_I_FRAMES: u32 = 30;

pub const RESTART_TIME: u32 = 120;

pub const POWERUP_TIMER: u32 = 600;

pub const POWERUP_DURATION: u32 = 240;

pub const POWERUP_SIZE: u32 = 20;

pub const ENEMY_SPAWN_TIMER_MIN: u32 = 240;

pub const ENEMY_SPAWN_TIMER_MAX: u32 = 420;

pub const ENEMY_SPAWN_AMOUNT_MIN: u32 = 6;

pub const ENEMY_SPAWN_AMOUNT_MAX: u32 = 14;

/// Stored (milli) units.
pub const ENEMY_RUN_FROM_DISTANCE: i64 = 300 * 1000;

/// Cap on each velocity coordinate, in stored units: accumulated separation
/// pushes never take a coordinate past it.
pub const VEL_CAP: i64 = 1_000_000;

/// The player eats this enemy: the player outsizes it or is powered up, and
/// the enemy is not invulnerable (the overlap test is checked separately).
pub open spec fn player_eats(p: Nommer, e: Nommer) -> bool {
    (p.size > e.size || p.powerup_remaining > 0) && e.i_frames == 0
}

/// This enemy eats the player: it strictly outsizes the player, and the
/// player is not invulnerable (the overlap test is checked separately).
pub open spec fn enemy_eats(p: Nommer, e: Nommer) -> bool {
    e.size > p.size && p.i_frames == 0
}

/// Chebyshev-style overlap of player and enemy, strict, in stored units
/// (world threshold: the two sizes plus two).
pub open spec fn nom_overlap(p_pos: Vec2i, e_pos: Vec2i, p_size: u32, e_size: u32) -> bool {
    cheb(p_pos, e_pos) < (p_size + e_size + 2) * SCALE
}

/// Chebyshev distance: the larger of the two per-axis distances.
pub open spec fn cheb(a: Vec2i, b: Vec2i) -> int {
    let dx = crate::math::abs_val(a.x - b.x);
    let dy = crate::math::abs_val(a.y - b.y);
    if dx > dy {
        dx
    } else {
        dy
    }
}

/// The whole simulation: the world, the one player entity, and the
/// lifecycle scheduler's timers.
pub struct GameState {
    pub tick: u128,
    pub world: World,
    pub player: usize,
    pub game_over: bool,
    pub restart_timer: u32,
    pub powerup_timer: u32,
    pub enemy_spawn_timer: u32,
    pub rng: RandomSource,
}

/// All scheduler fields and the player id agree between the two states;
/// only the world (and nothing else) may differ.
pub open spec fn same_but_world(a: GameState, b: GameState) -> bool {
    &&& a.tick == b.tick
    &&& a.player == b.player
    &&& a.game_over == b.game_over
    &&& a.restart_timer == b.restart_timer
    &&& a.powerup_timer == b.powerup_timer
    &&& a.enemy_spawn_timer == b.enemy_spawn_timer
    &&& a.rng == b.rng
}

/// As `same_but_world`, but the random source may have advanced.
pub open spec fn same_but_world_rng(a: GameState, b: GameState) -> bool {
    &&& a.tick == b.tick
    &&& a.player == b.player
    &&& a.game_over == b.game_over
    &&& a.restart_timer == b.restart_timer
    &&& a.powerup_timer == b.powerup_timer
    &&& a.enemy_spawn_timer == b.enemy_spawn_timer
}

impl GameState {
    pub open spec fn live(self, i: int) -> bool {
        self.world.live(i)
    }

    pub open spec fn c(self, i: int) -> Components {
        self.world.c(i)
    }

    pub open spec fn n_slots(self) -> int {
        self.world.slots@.len() as int
    }

    pub open spec fn is_enemy(self, i: int) -> bool {
        self.live(i) && self.c(i).role == Some(Role::Enemy)
    }

    pub open spec fn is_powerup(self, i: int) -> bool {
        self.live(i) && self.c(i).role == Some(Role::Powerup)
    }

    pub open spec fn player_ok(self) -> bool {
        &&& self.live(self.player as int)
        &&& self.c(self.player as int).role == Some(Role::Player)
        &&& self.c(self.player as int).pos is Some
        &&& self.c(self.player as int).nommer is Some
        &&& self.c(self.player as int).vel is None
    }

    pub open spec fn p_nommer(self) -> Nommer {
        self.c(self.player as int).nommer->0
    }

    pub open spec fn p_pos(self) -> Vec2i {
        self.c(self.player as int).pos->0
    }

    /// Per-entity invariant: a role is set, positions are clamped to the
    /// arena, velocity coordinates are capped, and each role carries
    /// exactly the components the data model gives it.
    pub open spec fn ent_ok(self, i: int) -> bool {
        let c = self.c(i);
        &&& c.role is Some
        &&& (c.pos is Some ==> in_bounds(c.pos->0))
        &&& (c.vel is Some ==> -VEL_CAP <= c.vel->0.x <= VEL_CAP && -VEL_CAP <= c.vel->0.y
            <= VEL_CAP)
        &&& (c.role == Some(Role::Enemy) ==> c.pos is Some && c.vel is Some && c.nommer is Some
            && c.nommer->0.size <= ENEMY_MAX_SIZE)
        &&& (c.role == Some(Role::Powerup) ==> c.pos is Some && c.vel is None && c.nommer is None)
        &&& (c.role == Some(Role::Player) ==> i == self.player as int)
    }

    /// Well-formedness of the whole state: one player with its mandatory
    /// components, every live entity sound, and the player's size within
    /// its role bounds whenever the session is running.
    pub open spec fn wf(self) -> bool {
        &&& self.player_ok()
        &&& forall|i: int| self.live(i) ==> #[trigger] self.ent_ok(i)
        &&& self.p_nommer().size <= PLAYER_MAX_SIZE
        &&& self.p_nommer().size >= PLAYER_MIN_SIZE - NOM_GROWTH
        &&& (!self.game_over ==> self.p_nommer().size >= PLAYER_MIN_SIZE)
    }
}

pub open spec fn initial_pos_x(px: int) -> int {
    clamped(px - ARENA_HALF_X, ARENA_HALF_X as int)
}

pub open spec fn initial_pos_y(py: int) -> int {
    clamped(py - ARENA_HALF_Y, ARENA_HALF_Y as int)
}

/// `s` is a freshly constructed session: one player entity, no enemies,
/// no power-ups, fresh timers, the pointer tracked into the arena.
pub open spec fn is_initial_state(s: GameState, px: int, py: int, rng: RandomSource) -> bool {
    &&& s.tick == 0
    &&& s.player == 0
    &&& s.game_over == false
    &&& s.restart_timer == 0
    &&& s.powerup_timer == POWERUP_TIMER
    &&& s.enemy_spawn_timer == 0
    &&& s.rng == rng
    &&& s.world.slots@.len() == 1
    &&& s.world.slots@[0] is Some
    &&& {
        let c = s.world.slots@[0]->0;
        &&& c.role == Some(Role::Player)
        &&& c.pos is Some
        &&& c.pos->0.x as int == initial_pos_x(px)
        &&& c.pos->0.y as int == initial_pos_y(py)
        &&& c.vel is None
        &&& c.nommer == Some(Nommer { size: PLAYER_INIT_SIZE, i_frames: 0, powerup_remaining: 0 })
        &&& c.visual == Some(Visual { color: ColorKind::White })
    }
}

/// A pointer coordinate the host may hand over (a machine bound, so the
/// translation into arena coordinates cannot overflow).
pub open spec fn pointer_ok(p: int) -> bool {
    -1_000_000_000 <= p <= 1_000_000_000
}

impl GameState {
    /// A fresh session: one player at the tracked pointer, nothing else.
    pub fn new(px: i64, py: i64, rng: RandomSource) -> (s: GameState)
        requires
            pointer_ok(px as int),
            pointer_ok(py as int),
        ensures
            is_initial_state(s, px as int, py as int, rng),
            s.wf(),
    {
        let pos = clamp_pos(Vec2i { x: px - ARENA_HALF_X, y: py - ARENA_HALF_Y });
        let mut world = World::new();
        let id = world.create();
        world.attach_role(id, Role::Player);
        world.attach_pos(id, pos);
        world.attach_nommer(
            id,
            Nommer { size: PLAYER_INIT_SIZE, i_frames: 0, powerup_remaining: 0 },
        );
        world.attach_visual(id, Visual { color: ColorKind::White });
        let s = GameState {
            tick: 0,
            world,
            player: id,
            game_over: false,
            restart_timer: 0,
            powerup_timer: POWERUP_TIMER,
            enemy_spawn_timer: 0,
            rng,
        };
        assert(s.world.slots@.len() == 1);
        assert(s.ent_ok(0));
        s
    }
}

/// Visual backfill of one entity: a size-bearing entity lacking a visual
/// gains the default one; everything else is untouched.
pub open spec fn backfilled_comps(c: Components) -> Components {
    if c.nommer is Some && c.visual is None {
        Components { visual: Some(Visual { color: ColorKind::Blue }), ..c }
    } else {
        c
    }
}

pub open spec fn backfilled_slot(s: Option<Components>) -> Option<Components> {
    match s {
        Some(c) => Some(backfilled_comps(c)),
        None => None,
    }
}

/// Enemy growth: size up by one, capped at the enemy maximum.
pub open spec fn grown_slot(s: Option<Components>) -> Option<Components> {
    match s {
        Some(c) => {
            if c.role == Some(Role::Enemy) && c.nommer is Some {
                let n = c.nommer->0;
                let ns = if n.size + 1 <= ENEMY_MAX_SIZE {
                    (n.size + 1) as u32
                } else {
                    ENEMY_MAX_SIZE
                };
                Some(Components { nommer: Some(Nommer { size: ns, ..n }), ..c })
            } else {
                Some(c)
            }
        },
        None => None,
    }
}

/// Invulnerability countdown of one entity.
pub open spec fn iframe_slot(s: Option<Components>) -> Option<Components> {
    match s {
        Some(c) => {
            if c.nommer is Some {
                let n = c.nommer->0;
                let ni = if n.i_frames > 0 {
                    (n.i_frames - 1) as u32
                } else {
                    0u32
                };
                Some(Components { nommer: Some(Nommer { i_frames: ni, ..n }), ..c })
            } else {
                Some(c)
            }
        },
        None => None,
    }
}

/// Power-up duration countdown of one entity.
pub open spec fn powerup_ticked_slot(s: Option<Components>) -> Option<Components> {
    match s {
        Some(c) => {
            if c.nommer is Some {
                let n = c.nommer->0;
                let np = if n.powerup_remaining > 0 {
                    (n.powerup_remaining - 1) as u32
                } else {
                    0u32
                };
                Some(Components { nommer: Some(Nommer { powerup_remaining: np, ..n }), ..c })
            } else {
                Some(c)
            }
        },
        None => None,
    }
}

impl GameState {
    /// Destroys every non-player entity (the game-over safety sweep).
    pub fn sweep_non_player(&mut self)
        requires
            old(self).wf(),
        ensures
            final(self).wf(),
            same_but_world(*final(self), *old(self)),
            final(self).n_slots() == old(self).n_slots(),
            forall|i: int|
                0 <= i < old(self).n_slots() ==> #[trigger] final(self).world.slots@[i] == (
                if i == old(self).player as int {
                    old(self).world.slots@[i]
                } else {
                    None::<Components>
                }),
            forall|i: int| final(self).live(i) ==> i == old(self).player as int,
    {
        let n = self.world.len();
        let mut i: usize = 0;
        while i < n
            invariant
                old(self).wf(),
                n == self.world.slots@.len(),
                n == old(self).world.slots@.len(),
                i <= n,
                self.player == old(self).player,
                same_but_world(*self, *old(self)),
                forall|j: int|
                    0 <= j < i ==> #[trigger] self.world.slots@[j] == (
                    if j == old(self).player as int {
                        old(self).world.slots@[j]
                    } else {
                        None::<Components>
                    }),
                forall|j: int| i <= j < n ==> self.world.slots@[j] == old(self).world.slots@[j],
            decreases n - i,
        {
            if i != self.player && self.world.slots[i].is_some() {
                self.world.destroy(i);
            }
            i = i + 1;
        }
        proof {
            assert(old(self).ent_ok(old(self).player as int));
            assert forall|i2: int| self.live(i2) implies #[trigger] self.ent_ok(i2) by {
                assert(i2 == old(self).player as int);
                assert(old(self).ent_ok(i2));
            }
        }
    }

    /// Attaches the default visual to every size-bearing entity lacking one.
    pub fn backfill_visuals(&mut self)
        requires
            old(self).wf(),
        ensures
            final(self).wf(),
            same_but_world(*final(self), *old(self)),
            final(self).n_slots() == old(self).n_slots(),
            forall|i: int|
                0 <= i < old(self).n_slots() ==> #[trigger] final(self).world.slots@[i]
                    == backfilled_slot(old(self).world.slots@[i]),
            forall|i: int| final(self).live(i) == old(self).live(i),
    {
        let n = self.world.len();
        let mut i: usize = 0;
        while i < n
            invariant
                old(self).wf(),
                n == self.world.slots@.len(),
                n == old(self).world.slots@.len(),
                i <= n,
                same_but_world(*self, *old(self)),
                forall|j: int|
                    0 <= j < i ==> #[trigger] self.world.slots@[j] == backfilled_slot(
                        old(self).world.slots@[j],
                    ),
                forall|j: int| i <= j < n ==> self.world.slots@[j] == old(self).world.slots@[j],
            decreases n - i,
        {
            if self.world.slots[i].is_some() {
                let c = self.world.get(i);
                if c.nommer.is_some() && !c.visual.is_some() {
                    self.world.attach_visual(i, Visual { color: ColorKind::Blue });
                }
            }
            i = i + 1;
        }
        proof {
            assert(self.player_ok()) by {
                assert(self.world.slots@[old(self).player as int] == backfilled_slot(
                    old(self).world.slots@[old(self).player as int],
                ));
            }
            assert forall|i2: int| self.live(i2) implies #[trigger] self.ent_ok(i2) by {
                assert(self.world.slots@[i2] == backfilled_slot(old(self).world.slots@[i2]));
                assert(old(self).live(i2));
                assert(old(self).ent_ok(i2));
            }
        }
    }

    /// Moves the player onto the pointer, translated into arena coordinates
    /// and clamped.
    pub fn track_pointer(&mut self, px: i64, py: i64)
        requires
            old(self).wf(),
            pointer_ok(px as int),
            pointer_ok(py as int),
        ensures
            final(self).wf(),
            same_but_world(*final(self), *old(self)),
            final(self).n_slots() == old(self).n_slots(),
            forall|i: int|
                0 <= i < old(self).n_slots() && i != old(self).player as int
                    ==> #[trigger] final(self).world.slots@[i] == old(self).world.slots@[i],
            final(self).live(old(self).player as int),
            final(self).c(old(self).player as int) == (Components {
                pos: final(self).c(old(self).player as int).pos,
                ..old(self).c(old(self).player as int)
            }),
            final(self).p_pos().x as int == initial_pos_x(px as int),
            final(self).p_pos().y as int == initial_pos_y(py as int),
            forall|i: int| final(self).live(i) == old(self).live(i),
    {
        let pos = clamp_pos(Vec2i { x: px - ARENA_HALF_X, y: py - ARENA_HALF_Y });
        let id = self.player;
        self.world.attach_pos(id, pos);
        proof {
            assert forall|i2: int| self.live(i2) implies #[trigger] self.ent_ok(i2) by {
                assert(old(self).ent_ok(i2));
            }
        }
    }

    /// Every enemy grows by one size unit, capped at the maximum.
    pub fn growth_step(&mut self)
        requires
            old(self).wf(),
        ensures
            final(self).wf(),
            same_but_world(*final(self), *old(self)),
            final(self).n_slots() == old(self).n_slots(),
            forall|i: int|
                0 <= i < old(self).n_slots() ==> #[trigger] final(self).world.slots@[i]
                    == grown_slot(old(self).world.slots@[i]),
            forall|i: int| final(self).live(i) == old(self).live(i),
    {
        let n = self.world.len();
        let mut i: usize = 0;
        while i < n
            invariant
                old(self).wf(),
                n == self.world.slots@.len(),
                n == old(self).world.slots@.len(),
                i <= n,
                same_but_world(*self, *old(self)),
                forall|j: int|
                    0 <= j < i ==> #[trigger] self.world.slots@[j] == grown_slot(
                        old(self).world.slots@[j],
                    ),
                forall|j: int| i <= j < n ==> self.world.slots@[j] == old(self).world.slots@[j],
            decreases n - i,
        {
            if self.world.slots[i].is_some() {
                let c = self.world.get(i);
                if matches!(c.role, Some(Role::Enemy)) && c.nommer.is_some() {
                    proof {
                        assert(old(self).live(i as int));
                        assert(old(self).ent_ok(i as int));
                    }
                    let mut nm = c.nommer.unwrap();
                    if nm.size + 1 <= ENEMY_MAX_SIZE {
                        nm.size = nm.size + 1;
                    } else {
                        nm.size = ENEMY_MAX_SIZE;
                    }
                    self.world.attach_nommer(i, nm);
                }
            }
            i = i + 1;
        }
        proof {
            assert(self.player_ok()) by {
                assert(self.world.slots@[old(self).player as int] == grown_slot(
                    old(self).world.slots@[old(self).player as int],
                ));
            }
            assert forall|i2: int| self.live(i2) implies #[trigger] self.ent_ok(i2) by {
                assert(self.world.slots@[i2] == grown_slot(old(self).world.slots@[i2]));
                assert(old(self).live(i2));
                assert(old(self).ent_ok(i2));
            }
        }
    }

    /// Counts every nonzero invulnerability window one tick down.
    pub fn iframe_step(&mut self)
        requires
            old(self).wf(),
        ensures
            final(self).wf(),
            same_but_world(*final(self), *old(self)),
            final(self).n_slots() == old(self).n_slots(),
            forall|i: int|
                0 <= i < old(self).n_slots() ==> #[trigger] final(self).world.slots@[i]
                    == iframe_slot(old(self).world.slots@[i]),
            forall|i: int| final(self).live(i) == old(self).live(i),
    {
        let n = self.world.len();
        let mut i: usize = 0;
        while i < n
            invariant
                old(self).wf(),
                n == self.world.slots@.len(),
                n == old(self).world.slots@.len(),
                i <= n,
                same_but_world(*self, *old(self)),
                forall|j: int|
                    0 <= j < i ==> #[trigger] self.world.slots@[j] == iframe_slot(
                        old(self).world.slots@[j],
                    ),
                forall|j: int| i <= j < n ==> self.world.slots@[j] == old(self).world.slots@[j],
            decreases n - i,
        {
            if self.world.slots[i].is_some() {
                let c = self.world.get(i);
                if c.nommer.is_some() {
                    let mut nm = c.nommer.unwrap();
                    if nm.i_frames > 0 {
                        nm.i_frames = nm.i_frames - 1;
                    }
                    self.world.attach_nommer(i, nm);
                }
            }
            i = i + 1;
        }
        proof {
            assert(self.player_ok()) by {
                assert(self.world.slots@[old(self).player as int] == iframe_slot(
                    old(self).world.slots@[old(self).player as int],
                ));
            }
            assert forall|i2: int| self.live(i2) implies #[trigger] self.ent_ok(i2) by {
                assert(self.world.slots@[i2] == iframe_slot(old(self).world.slots@[i2]));
                assert(old(self).live(i2));
                assert(old(self).ent_ok(i2));
            }
        }
    }

    /// Counts every nonzero power-up duration one tick down.
    pub fn powerup_duration_step(&mut self)
        requires
            old(self).wf(),
        ensures
            final(self).wf(),
            same_but_world(*final(self), *old(self)),
            final(self).n_slots() == old(self).n_slots(),
            forall|i: int|
                0 <= i < old(self).n_slots() ==> #[trigger] final(self).world.slots@[i]
                    == powerup_ticked_slot(old(self).world.slots@[i]),
            forall|i: int| final(self).live(i) == old(self).live(i),
    {
        let n = self.world.len();
        let mut i: usize = 0;
        while i < n
            invariant
                old(self).wf(),
                n == self.world.slots@.len(),
                n == old(self).world.slots@.len(),
                i <= n,
                same_but_world(*self, *old(self)),
                forall|j: int|
                    0 <= j < i ==> #[trigger] self.world.slots@[j] == powerup_ticked_slot(
                        old(self).world.slots@[j],
                    ),
                forall|j: int| i <= j < n ==> self.world.slots@[j] == old(self).world.slots@[j],
            decreases n - i,
        {
            if self.world.slots[i].is_some() {
                let c = self.world.get(i);
                if c.nommer.is_some() {
                    let mut nm = c.nommer.unwrap();
                    if nm.powerup_remaining > 0 {
                        nm.powerup_remaining = nm.powerup_remaining - 1;
                    }
                    self.world.attach_nommer(i, nm);
                }
            }
            i = i + 1;
        }
        proof {
            assert(self.player_ok()) by {
                assert(self.world.slots@[old(self).player as int] == powerup_ticked_slot(
                    old(self).world.slots@[old(self).player as int],
                ));
            }
            assert forall|i2: int| self.live(i2) implies #[trigger] self.ent_ok(i2) by {
                assert(self.world.slots@[i2] == powerup_ticked_slot(old(self).world.slots@[i2]));
                assert(old(self).live(i2));
                assert(old(self).ent_ok(i2));
            }
        }
    }
}

/// Squared distance between two points.
pub open spec fn dsq(a: Vec2i, b: Vec2i) -> int {
    (a.x - b.x) * (a.x - b.x) + (a.y - b.y) * (a.y - b.y)
}

/// The enemy chases: the player is strictly smaller and not powered up.
pub open spec fn chase_cond(p_size: u32, p_powerup: u32, e_size: u32) -> bool {
    p_size < e_size && p_powerup == 0
}

/// The enemy flees: the player is within the run-from distance.
pub open spec fn flees(p_pos: Vec2i, q: Vec2i) -> bool {
    dsq(p_pos, q) < ENEMY_RUN_FROM_DISTANCE * ENEMY_RUN_FROM_DISTANCE
}

/// Acceleration toward `p_pos` from `q`, of magnitude at most `ENEMY_SPEED`.
pub open spec fn steer_x(p_pos: Vec2i, q: Vec2i) -> int {
    rescaled_coord(p_pos.x - q.x, dsq(p_pos, q), ENEMY_SPEED as int)
}

pub open spec fn steer_y(p_pos: Vec2i, q: Vec2i) -> int {
    rescaled_coord(p_pos.y - q.y, dsq(p_pos, q), ENEMY_SPEED as int)
}

/// Velocity clamp: rescaled onto the maximum speed when over it, never
/// changing direction; untouched otherwise.
pub open spec fn limited_x(wx: int, wy: int) -> int {
    if wx * wx + wy * wy > ENEMY_MAX_SPEED * ENEMY_MAX_SPEED {
        rescaled_coord(wx, wx * wx + wy * wy, ENEMY_MAX_SPEED as int)
    } else {
        wx
    }
}

pub open spec fn limited_y(wx: int, wy: int) -> int {
    if wx * wx + wy * wy > ENEMY_MAX_SPEED * ENEMY_MAX_SPEED {
        rescaled_coord(wy, wx * wx + wy * wy, ENEMY_MAX_SPEED as int)
    } else {
        wy
    }
}

/// The new velocity of the entity is the old one plus acceleration
/// `(ax, ay)`, clamped to the maximum speed.
pub open spec fn new_vel_is(nc: Components, v: Vec2i, ax: int, ay: int) -> bool {
    &&& nc.vel->0.x as int == limited_x(v.x + ax, v.y + ay)
    &&& nc.vel->0.y as int == limited_y(v.x + ax, v.y + ay)
}

/// The new position integrates the new velocity from `q` and clamps.
pub open spec fn new_pos_is(nc: Components, q: Vec2i) -> bool {
    &&& nc.pos->0.x as int == clamped(q.x + nc.vel->0.x, ARENA_HALF_X as int)
    &&& nc.pos->0.y as int == clamped(q.y + nc.vel->0.y, ARENA_HALF_Y as int)
}

/// One enemy's steering and integration, relative to the player snapshot:
/// skip on the degenerate shared position; chase when the player is smaller
/// and unpowered; flee when the player is close; wander on a random jitter
/// otherwise.
pub open spec fn moved_enemy_ok(
    oc: Components,
    nc: Components,
    p_pos: Vec2i,
    p_size: u32,
    p_powerup: u32,
) -> bool {
    let q = oc.pos->0;
    let v = oc.vel->0;
    &&& nc.role == oc.role
    &&& nc.nommer == oc.nommer
    &&& nc.visual == oc.visual
    &&& nc.pos is Some
    &&& nc.vel is Some
    &&& (q == p_pos ==> nc == oc)
    &&& (q != p_pos && chase_cond(p_size, p_powerup, oc.nommer->0.size) ==> new_vel_is(
        nc,
        v,
        steer_x(p_pos, q),
        steer_y(p_pos, q),
    ) && new_pos_is(nc, q))
    &&& (q != p_pos && !chase_cond(p_size, p_powerup, oc.nommer->0.size) && flees(p_pos, q)
        ==> new_vel_is(nc, v, -steer_x(p_pos, q), -steer_y(p_pos, q)) && new_pos_is(nc, q))
    &&& (q != p_pos && !chase_cond(p_size, p_powerup, oc.nommer->0.size) && !flees(p_pos, q)
        ==> exists|jx: int, jy: int|
        jx * jx + jy * jy <= SCALE * SCALE && new_vel_is(nc, v, jx, jy) && new_pos_is(nc, q))
}

/// Clamps a velocity onto the maximum enemy speed, keeping its direction.
pub fn limit_speed(w: Vec2i) -> (r: Vec2i)
    requires
        small(w),
    ensures
        r.x as int == limited_x(w.x as int, w.y as int),
        r.y as int == limited_y(w.x as int, w.y as int),
        mag_sq(r) <= ENEMY_MAX_SPEED * ENEMY_MAX_SPEED,
        -ENEMY_MAX_SPEED <= r.x <= ENEMY_MAX_SPEED,
        -ENEMY_MAX_SPEED <= r.y <= ENEMY_MAX_SPEED,
{
    let m = mag_sq_exec(w);
    if m > (ENEMY_MAX_SPEED * ENEMY_MAX_SPEED) as u64 {
        let r = rescale(w, ENEMY_MAX_SPEED);
        proof {
            crate::math::lemma_square_bound(r.x as int, ENEMY_MAX_SPEED as int);
            crate::math::lemma_square_bound(r.y as int, ENEMY_MAX_SPEED as int);
        }
        r
    } else {
        proof {
            let wx = w.x as int;
            let wy = w.y as int;
            let ex = if wx < 0 {
                -wx
            } else {
                wx
            };
            let ey = if wy < 0 {
                -wy
            } else {
                wy
            };
            assert(ex * ex == wx * wx && ey * ey == wy * wy) by (nonlinear_arith)
                requires
                    ex == wx || ex == -wx,
                    ey == wy || ey == -wy,
            ;
            assert(ex * ex <= ENEMY_MAX_SPEED * ENEMY_MAX_SPEED) by (nonlinear_arith)
                requires
                    ex * ex + ey * ey <= ENEMY_MAX_SPEED * ENEMY_MAX_SPEED,
                    0 <= ey * ey,
            ;
            assert(ey * ey <= ENEMY_MAX_SPEED * ENEMY_MAX_SPEED) by (nonlinear_arith)
                requires
                    ex * ex + ey * ey <= ENEMY_MAX_SPEED * ENEMY_MAX_SPEED,
                    0 <= ex * ex,
            ;
            crate::math::lemma_sq_le(ex, ENEMY_MAX_SPEED as int);
            crate::math::lemma_sq_le(ey, ENEMY_MAX_SPEED as int);
        }
        w
    }
}

impl GameState {
    /// Movement and steering of every enemy against the player snapshot,
    /// then integration and the hard arena clamp.
    #[verifier::rlimit(80)]
    pub fn movement_step(&mut self, p_pos: Vec2i, p_size: u32, p_powerup: u32)
        requires
            old(self).wf(),
            in_bounds(p_pos),
        ensures
            final(self).wf(),
            same_but_world_rng(*final(self), *old(self)),
            final(self).n_slots() == old(self).n_slots(),
            forall|i: int|
                0 <= i < old(self).n_slots() && !old(self).is_enemy(i)
                    ==> #[trigger] final(self).world.slots@[i] == old(self).world.slots@[i],
            forall|i: int|
                old(self).is_enemy(i) ==> moved_enemy_ok(
                    old(self).c(i),
                    #[trigger] final(self).c(i),
                    p_pos,
                    p_size,
                    p_powerup,
                ),
            forall|i: int|
                old(self).is_enemy(i) && old(self).c(i).pos->0 != p_pos ==> mag_sq(
                    #[trigger] final(self).c(i).vel->0,
                ) <= ENEMY_MAX_SPEED * ENEMY_MAX_SPEED,
            forall|i: int|
                old(self).is_enemy(i) ==> in_bounds(#[trigger] final(self).c(i).pos->0),
            forall|i: int| final(self).live(i) == old(self).live(i),
    {
        let n = self.world.len();
        let mut i: usize = 0;
        while i < n
            invariant
                old(self).wf(),
                in_bounds(p_pos),
                n == self.world.slots@.len(),
                n == old(self).world.slots@.len(),
                i <= n,
                same_but_world_rng(*self, *old(self)),
                forall|j: int|
                    0 <= j < n && !old(self).is_enemy(j) ==> #[trigger] self.world.slots@[j]
                        == old(self).world.slots@[j],
                forall|j: int| i <= j < n ==> self.world.slots@[j] == old(self).world.slots@[j],
                forall|j: int|
                    0 <= j < i && old(self).is_enemy(j) ==> moved_enemy_ok(
                        old(self).c(j),
                        #[trigger] self.c(j),
                        p_pos,
                        p_size,
                        p_powerup,
                    ),
                forall|j: int|
                    0 <= j < i && old(self).is_enemy(j) && old(self).c(j).pos->0 != p_pos
                        ==> mag_sq(#[trigger] self.c(j).vel->0) <= ENEMY_MAX_SPEED
                        * ENEMY_MAX_SPEED,
                forall|j: int|
                    0 <= j < i && old(self).is_enemy(j) && old(self).c(j).pos->0 == p_pos
                        ==> #[trigger] self.c(j).vel == old(self).c(j).vel,
                forall|j: int|
                    0 <= j < i && old(self).is_enemy(j) && old(self).c(j).pos->0 != p_pos ==> {
                        let nv = (#[trigger] self.c(j)).vel->0;
                        -ENEMY_MAX_SPEED <= nv.x <= ENEMY_MAX_SPEED && -ENEMY_MAX_SPEED <= nv.y
                            <= ENEMY_MAX_SPEED
                    },
                forall|j: int|
                    0 <= j < i && old(self).is_enemy(j) ==> in_bounds(
                        (#[trigger] self.c(j)).pos->0,
                    ),
                forall|j: int| self.live(j) == old(self).live(j),
            decreases n - i,
        {
            if self.world.slots[i].is_some() {
                let c = self.world.get(i);
                if matches!(c.role, Some(Role::Enemy)) {
                    proof {
                        assert(old(self).live(i as int));
                        assert(old(self).ent_ok(i as int));
                        assert(self.world.slots@[i as int] == old(self).world.slots@[i as int]);
                    }
                    let q = c.pos.unwrap();
                    let v = c.vel.unwrap();
                    let e_size = c.nommer.unwrap().size;
                    let dx = p_pos.x - q.x;
                    let dy = p_pos.y - q.y;
                    if dx != 0 || dy != 0 {
                        let d = Vec2i { x: dx, y: dy };
                        let accel: Vec2i = if p_size < e_size && p_powerup == 0 {
                            rescale(d, ENEMY_SPEED)
                        } else {
                            let m = mag_sq_exec(d);
                            if m < (ENEMY_RUN_FROM_DISTANCE * ENEMY_RUN_FROM_DISTANCE) as u64 {
                                let a = rescale(d, ENEMY_SPEED);
                                Vec2i { x: -a.x, y: -a.y }
                            } else {
                                let jx = self.rng.between(-SCALE, SCALE);
                                let jy = self.rng.between(-SCALE, SCALE);
                                rescale(Vec2i { x: jx, y: jy }, SCALE)
                            }
                        };
                        let w = Vec2i { x: v.x + accel.x, y: v.y + accel.y };
                        let nv = limit_speed(w);
                        let np = clamp_pos(Vec2i { x: q.x + nv.x, y: q.y + nv.y });
                        self.world.attach_vel(i, nv);
                        self.world.attach_pos(i, np);
                        proof {
                            let oc = old(self).c(i as int);
                            let nc = self.c(i as int);
                            if !chase_cond(p_size, p_powerup, oc.nommer->0.size) && !flees(
                                p_pos,
                                q,
                            ) {
                                assert(mag_sq(accel) <= SCALE * SCALE);
                                assert(new_vel_is(nc, v, accel.x as int, accel.y as int));
                                assert(new_pos_is(nc, q));
                            }
                            assert(moved_enemy_ok(oc, nc, p_pos, p_size, p_powerup));
                        }
                    }
                }
            }
            i = i + 1;
        }
        proof {
            assert(self.player_ok()) by {
                assert(!old(self).is_enemy(old(self).player as int));
            }
            assert forall|i2: int| self.live(i2) implies #[trigger] self.ent_ok(i2) by {
                assert(old(self).live(i2));
                assert(old(self).ent_ok(i2));
                if old(self).is_enemy(i2) {
                    assert(moved_enemy_ok(old(self).c(i2), self.c(i2), p_pos, p_size, p_powerup));
                } else {
                    assert(self.world.slots@[i2] == old(self).world.slots@[i2]);
                }
            }
        }
    }

    /// Soft separation: every enemy too big for the player to eat is pushed
    /// away from each enemy it overlaps; the accumulated pushes are applied
    /// to the velocities afterwards, with each coordinate capped. The
    /// returned ghost directions witness the push of every overlapping
    /// pair (a random one where two centers coincide).
    #[verifier::rlimit(100)]
    pub fn separation_step(&mut self, p_size: u32) -> (dirs: Ghost<Seq<Seq<Vec2i>>>)
        requires
            old(self).wf(),
        ensures
            final(self).wf(),
            same_but_world_rng(*final(self), *old(self)),
            final(self).n_slots() == old(self).n_slots(),
            dirs@.len() == old(self).n_slots(),
            forall|i: int|
                0 <= i < old(self).n_slots() && !(old(self).is_enemy(i) && old(self).c(
                    i,
                ).nommer->0.size > p_size) ==> #[trigger] final(self).world.slots@[i] == old(
                    self,
                ).world.slots@[i],
            forall|i: int|
                old(self).is_enemy(i) && old(self).c(i).nommer->0.size > p_size ==> {
                    let oc = old(self).c(i);
                    let nc = #[trigger] final(self).c(i);
                    &&& nc == (Components { vel: nc.vel, ..oc })
                    &&& nc.vel is Some
                    &&& -VEL_CAP <= nc.vel->0.x <= VEL_CAP
                    &&& -VEL_CAP <= nc.vel->0.y <= VEL_CAP
                    &&& dirs@[i].len() == old(self).n_slots()
                    &&& nc.vel->0 == sep_accum(
                        old(self).world.slots@,
                        p_size,
                        i,
                        dirs@[i],
                        old(self).n_slots(),
                        oc.vel->0,
                    )
                    &&& (forall|k: int|
                        0 <= k < old(self).n_slots() && k != i && old(self).live(k) && old(
                            self,
                        ).c(k).role == Some(Role::Enemy) && sep_overlaps(oc, old(self).c(k))
                            ==> sep_dir_ok(oc, old(self).c(k), #[trigger] dirs@[i][k]))
                },
            forall|i: int| final(self).live(i) == old(self).live(i),
    {
        let n = self.world.len();
        let mut totals: Vec<(usize, Vec2i)> = Vec::new();
        let ghost mut all_dirs: Seq<Seq<Vec2i>> = Seq::new(n as nat, |i: int| Seq::empty());
        let mut i: usize = 0;
        while i < n
            invariant
                old(self).wf(),
                self.world == old(self).world,
                same_but_world_rng(*self, *old(self)),
                n == self.world.slots@.len(),
                i <= n,
                all_dirs.len() == n,
                forall|k: int, k2: int|
                    0 <= k < k2 < totals@.len() ==> totals@[k].0 < totals@[k2].0,
                forall|k: int| 0 <= k < totals@.len() ==> (#[trigger] totals@[k].0 as int) < i,
                forall|k: int|
                    0 <= k < totals@.len() ==> {
                        let (e, vt) = #[trigger] totals@[k];
                        &&& old(self).is_enemy(e as int)
                        &&& old(self).c(e as int).nommer->0.size > p_size
                        &&& -VEL_CAP <= vt.x <= VEL_CAP
                        &&& -VEL_CAP <= vt.y <= VEL_CAP
                        &&& all_dirs[e as int].len() == n
                        &&& vt == sep_accum(
                            old(self).world.slots@,
                            p_size,
                            e as int,
                            all_dirs[e as int],
                            n as int,
                            old(self).c(e as int).vel->0,
                        )
                        &&& (forall|m: int|
                            0 <= m < n && m != e as int && old(self).live(m) && old(self).c(
                                m,
                            ).role == Some(Role::Enemy) && sep_overlaps(
                                old(self).c(e as int),
                                old(self).c(m),
                            ) ==> sep_dir_ok(
                                old(self).c(e as int),
                                old(self).c(m),
                                #[trigger] all_dirs[e as int][m],
                            ))
                    },
                forall|m: int|
                    0 <= m < i && #[trigger] old(self).is_enemy(m) && old(self).c(
                        m,
                    ).nommer->0.size > p_size ==> exists|k: int|
                        0 <= k < totals@.len() && #[trigger] totals@[k].0 as int == m,
            decreases n - i,
        {
            if self.world.slots[i].is_some() {
                let c1 = self.world.get(i);
                if matches!(c1.role, Some(Role::Enemy)) {
                    proof {
                        assert(old(self).ent_ok(i as int));
                    }
                    let sz = c1.nommer.unwrap().size;
                    if sz > p_size {
                        let v0 = c1.vel.unwrap();
                        let ghost prev = totals@;
                        proof {
                            lemma_wf_same_world(*old(self), *self);
                        }
                        let (vtot, ds) = self.separation_accumulate(i, p_size, v0);
                        totals.push((i, vtot));
                        proof {
                            all_dirs = all_dirs.update(i as int, ds@);
                            assert(forall|j: int| 0 <= j < prev.len() ==> totals@[j] == prev[j]);
                            assert forall|m: int|
                                0 <= m < i + 1 && #[trigger] old(self).is_enemy(m) && old(
                                    self,
                                ).c(m).nommer->0.size > p_size implies exists|k: int|
                                0 <= k < totals@.len() && #[trigger] totals@[k].0 as int == m by {
                                if m == i as int {
                                    assert(totals@[prev.len() as int].0 as int == m);
                                } else {
                                    let k = choose|k: int|
                                        0 <= k < prev.len() && #[trigger] prev[k].0 as int == m;
                                    assert(totals@[k].0 as int == m);
                                }
                            }
                        }
                    }
                }
            }
            i = i + 1;
        }
        let nt = totals.len();
        let mut j: usize = 0;
        while j < nt
            invariant
                old(self).wf(),
                nt == totals@.len(),
                j <= nt,
                same_but_world_rng(*self, *old(self)),
                self.world.slots@.len() == old(self).world.slots@.len(),
                n == old(self).world.slots@.len(),
                all_dirs.len() == n,
                forall|k: int, k2: int|
                    0 <= k < k2 < totals@.len() ==> totals@[k].0 < totals@[k2].0,
                forall|k: int|
                    0 <= k < totals@.len() ==> {
                        let (e, vt) = #[trigger] totals@[k];
                        &&& old(self).is_enemy(e as int)
                        &&& old(self).c(e as int).nommer->0.size > p_size
                        &&& -VEL_CAP <= vt.x <= VEL_CAP
                        &&& -VEL_CAP <= vt.y <= VEL_CAP
                        &&& all_dirs[e as int].len() == n
                        &&& vt == sep_accum(
                            old(self).world.slots@,
                            p_size,
                            e as int,
                            all_dirs[e as int],
                            n as int,
                            old(self).c(e as int).vel->0,
                        )
                        &&& (forall|m: int|
                            0 <= m < n && m != e as int && old(self).live(m) && old(self).c(
                                m,
                            ).role == Some(Role::Enemy) && sep_overlaps(
                                old(self).c(e as int),
                                old(self).c(m),
                            ) ==> sep_dir_ok(
                                old(self).c(e as int),
                                old(self).c(m),
                                #[trigger] all_dirs[e as int][m],
                            ))
                    },
                forall|m: int|
                    #[trigger] old(self).is_enemy(m) && old(self).c(m).nommer->0.size > p_size
                        ==> exists|k: int|
                        0 <= k < totals@.len() && #[trigger] totals@[k].0 as int == m,
                forall|i2: int|
                    0 <= i2 < n && !(exists|k: int|
                        0 <= k < j && #[trigger] totals@[k].0 as int == i2)
                        ==> #[trigger] self.world.slots@[i2] == old(self).world.slots@[i2],
                forall|k: int|
                    0 <= k < j ==> {
                        let (e, vt) = #[trigger] totals@[k];
                        self.world.slots@[e as int] == Some(
                            Components { vel: Some(vt), ..old(self).c(e as int) },
                        )
                    },
                forall|i2: int| self.live(i2) == old(self).live(i2),
            decreases nt - j,
        {
            let ghost pre = *self;
            let (e, vt) = totals[j];
            proof {
                assert(old(self).is_enemy(e as int));
                assert(forall|k: int| 0 <= k < j ==> (#[trigger] totals@[k].0) < e);
                assert(self.world.slots@[e as int] == old(self).world.slots@[e as int]);
                assert(self.live(e as int));
            }
            self.world.attach_vel(e, vt);
            proof {
                assert forall|i2: int|
                    0 <= i2 < n && !(exists|k: int|
                        0 <= k < j + 1 && #[trigger] totals@[k].0 as int == i2) implies
                    #[trigger] self.world.slots@[i2] == old(self).world.slots@[i2] by {
                    assert(totals@[j as int].0 as int != i2);
                    assert(pre.world.slots@[i2] == old(self).world.slots@[i2]);
                }
                assert forall|k: int| 0 <= k < j + 1 implies {
                    let (e2, vt2) = #[trigger] totals@[k];
                    self.world.slots@[e2 as int] == Some(
                        Components { vel: Some(vt2), ..old(self).c(e2 as int) },
                    )
                } by {
                    if k < j {
                        assert(totals@[k].0 < e);
                        assert(self.world.slots@[totals@[k].0 as int] == pre.world.slots@[totals@[
                            k
                        ].0 as int]);
                    }
                }
            }
            j = j + 1;
        }
        proof {
            assert(self.player_ok()) by {
                assert(!old(self).is_enemy(old(self).player as int));
            }
            assert forall|i2: int| self.live(i2) implies #[trigger] self.ent_ok(i2) by {
                assert(old(self).live(i2));
                assert(old(self).ent_ok(i2));
                if !(old(self).is_enemy(i2) && old(self).c(i2).nommer->0.size > p_size) {
                    assert(self.world.slots@[i2] == old(self).world.slots@[i2]);
                } else {
                    let k = choose|k: int|
                        0 <= k < totals@.len() && #[trigger] totals@[k].0 as int == i2;
                    assert(self.world.slots@[i2] == Some(
                        Components { vel: Some(totals@[k].1), ..old(self).c(i2) },
                    ));
                }
            }
            assert forall|i: int|
                old(self).is_enemy(i) && old(self).c(i).nommer->0.size > p_size implies {
                    let oc = old(self).c(i);
                    let nc = self.c(i);
                    &&& nc == (Components { vel: nc.vel, ..oc })
                    &&& nc.vel is Some
                    &&& -VEL_CAP <= nc.vel->0.x <= VEL_CAP
                    &&& -VEL_CAP <= nc.vel->0.y <= VEL_CAP
                    &&& all_dirs[i].len() == old(self).n_slots()
                    &&& nc.vel->0 == sep_accum(
                        old(self).world.slots@,
                        p_size,
                        i,
                        all_dirs[i],
                        old(self).n_slots(),
                        oc.vel->0,
                    )
                    &&& (forall|k: int|
                        0 <= k < old(self).n_slots() && k != i && old(self).live(k) && old(
                            self,
                        ).c(k).role == Some(Role::Enemy) && sep_overlaps(oc, old(self).c(k))
                            ==> sep_dir_ok(oc, old(self).c(k), #[trigger] all_dirs[i][k]))
                } by {
                let k = choose|k: int|
                    0 <= k < totals@.len() && #[trigger] totals@[k].0 as int == i;
                assert(self.world.slots@[i] == Some(
                    Components { vel: Some(totals@[k].1), ..old(self).c(i) },
                ));
            }
        }
        Ghost(all_dirs)
    }

    /// Accumulates every separation push onto velocity `v0` of the
    /// oversized enemy `e1`, drawing a fallback direction from the random
    /// source when two centers coincide; the world itself is not touched.
    #[verifier::rlimit(100)]
    fn separation_accumulate(&mut self, e1: usize, p_size: u32, v0: Vec2i) -> (r: (
        Vec2i,
        Ghost<Seq<Vec2i>>,
    ))
        requires
            old(self).wf(),
            old(self).is_enemy(e1 as int),
            old(self).c(e1 as int).nommer->0.size > p_size,
            -VEL_CAP <= v0.x <= VEL_CAP,
            -VEL_CAP <= v0.y <= VEL_CAP,
        ensures
            final(self).world == old(self).world,
            same_but_world_rng(*final(self), *old(self)),
            r.1@.len() == old(self).n_slots(),
            r.0 == sep_accum(
                old(self).world.slots@,
                p_size,
                e1 as int,
                r.1@,
                old(self).n_slots(),
                v0,
            ),
            -VEL_CAP <= r.0.x <= VEL_CAP,
            -VEL_CAP <= r.0.y <= VEL_CAP,
            forall|m: int|
                0 <= m < old(self).n_slots() && m != e1 as int && old(self).live(m) && old(
                    self,
                ).c(m).role == Some(Role::Enemy) && sep_overlaps(
                    old(self).c(e1 as int),
                    old(self).c(m),
                ) ==> sep_dir_ok(old(self).c(e1 as int), old(self).c(m), #[trigger] r.1@[m]),
    {
        let n = self.world.len();
        proof {
            assert(old(self).ent_ok(e1 as int));
        }
        let c1 = self.world.get(e1);
        let p1 = c1.pos.unwrap();
        let s1 = c1.nommer.unwrap().size;
        let mut v = v0;
        let ghost mut dirs: Seq<Vec2i> = Seq::empty();
        let mut k: usize = 0;
        while k < n
            invariant
                old(self).wf(),
                self.world == old(self).world,
                same_but_world_rng(*self, *old(self)),
                n == self.world.slots@.len(),
                k <= n,
                old(self).is_enemy(e1 as int),
                old(self).c(e1 as int).nommer->0.size > p_size,
                p1 == old(self).c(e1 as int).pos->0,
                s1 == old(self).c(e1 as int).nommer->0.size,
                in_bounds(p1),
                s1 <= ENEMY_MAX_SIZE,
                -VEL_CAP <= v0.x <= VEL_CAP,
                -VEL_CAP <= v0.y <= VEL_CAP,
                dirs.len() == k,
                -VEL_CAP <= v.x <= VEL_CAP,
                -VEL_CAP <= v.y <= VEL_CAP,
                v == sep_accum(old(self).world.slots@, p_size, e1 as int, dirs, k as int, v0),
                forall|m: int|
                    0 <= m < k && m != e1 as int && old(self).live(m) && old(self).c(m).role
                        == Some(Role::Enemy) && sep_overlaps(
                        old(self).c(e1 as int),
                        old(self).c(m),
                    ) ==> sep_dir_ok(old(self).c(e1 as int), old(self).c(m), #[trigger] dirs[m]),
            decreases n - k,
        {
            let ghost prev_dirs = dirs;
            let ghost pre_v = v;
            let mut pushed = false;
            if k != e1 && self.world.slots[k].is_some() {
                let c2 = self.world.get(k);
                if matches!(c2.role, Some(Role::Enemy)) {
                    proof {
                        assert(old(self).ent_ok(k as int));
                    }
                    let p2 = c2.pos.unwrap();
                    let s2 = c2.nommer.unwrap().size;
                    let pad = ((s1 + 10) as i64 + (s2 + 10) as i64) * SCALE;
                    let mut adx = p1.x - p2.x;
                    if adx < 0 {
                        adx = -adx;
                    }
                    let mut ady = p1.y - p2.y;
                    if ady < 0 {
                        ady = -ady;
                    }
                    let gx = adx - pad;
                    let gy = ady - pad;
                    proof {
                        assert(gx == sep_gap_x(old(self).c(e1 as int), old(self).c(k as int)));
                        assert(gy == sep_gap_y(old(self).c(e1 as int), old(self).c(k as int)));
                    }
                    if gx < 0 && gy < 0 {
                        let dir: Vec2i = if p1.x == p2.x && p1.y == p2.y {
                            let mut fx = self.rng.between(-SCALE, SCALE);
                            if fx == 0 {
                                fx = if self.rng.below(2) == 0 {
                                    -100
                                } else {
                                    100
                                };
                            }
                            let mut fy = self.rng.between(-SCALE, SCALE);
                            if fy == 0 {
                                fy = if self.rng.below(2) == 0 {
                                    -100
                                } else {
                                    100
                                };
                            }
                            Vec2i { x: fx, y: fy }
                        } else {
                            Vec2i { x: p1.x - p2.x, y: p1.y - p2.y }
                        };
                        let g = Vec2i { x: gx, y: gy };
                        proof {
                            assert(-70000 <= gx < 0 && -70000 <= gy < 0);
                            crate::math::lemma_square_bound(gx as int, 70000);
                            crate::math::lemma_square_bound(gy as int, 70000);
                            assert(mag_sq(g) >= 1) by (nonlinear_arith)
                                requires
                                    g.x <= -1,
                                    g.y <= -1,
                                    mag_sq(g) == g.x * g.x + g.y * g.y,
                            ;
                        }
                        let m = mag_sq_exec(g);
                        let overlap = crate::math::ceil_sqrt(m);
                        proof {
                            assert(0 < overlap);
                            assert(((overlap - 1) as int) * ((overlap - 1) as int) < m as int);
                            assert(overlap as int <= 100_000) by (nonlinear_arith)
                                requires
                                    0 < overlap,
                                    ((overlap - 1) as int) * ((overlap - 1) as int) < m as int,
                                    m as int <= 9_800_000_000,
                            ;
                            assert((overlap as i64) / 100 == sep_push_mag(
                                old(self).c(e1 as int),
                                old(self).c(k as int),
                            ));
                        }
                        let push = rescale(dir, (overlap as i64) / 100);
                        v = Vec2i {
                            x: crate::math::clamp_coord(v.x + push.x, VEL_CAP),
                            y: crate::math::clamp_coord(v.y + push.y, VEL_CAP),
                        };
                        proof {
                            dirs = dirs.push(dir);
                        }
                        pushed = true;
                    }
                }
            }
            if !pushed {
                proof {
                    dirs = dirs.push(Vec2i { x: 0, y: 0 });
                }
            }
            proof {
                lemma_sep_accum_prefix(
                    old(self).world.slots@,
                    p_size,
                    e1 as int,
                    prev_dirs,
                    dirs,
                    k as int,
                    v0,
                );
                assert(sep_accum(
                    old(self).world.slots@,
                    p_size,
                    e1 as int,
                    dirs,
                    k as int,
                    v0,
                ) == pre_v);
                assert(v == sep_accum(
                    old(self).world.slots@,
                    p_size,
                    e1 as int,
                    dirs,
                    k as int + 1,
                    v0,
                ));
            }
            k = k + 1;
        }
        (v, Ghost(dirs))
    }
}

/// Per-axis gap between the padded bounding boxes of two entities: the
/// axis distance of the centers minus both padded sizes, in stored units.
pub open spec fn sep_gap_x(c1: Components, c2: Components) -> int {
    crate::math::abs_val(c1.pos->0.x - c2.pos->0.x) - (c1.nommer->0.size + 10 + c2.nommer->0.size
        + 10) * SCALE
}

pub open spec fn sep_gap_y(c1: Components, c2: Components) -> int {
    crate::math::abs_val(c1.pos->0.y - c2.pos->0.y) - (c1.nommer->0.size + 10 + c2.nommer->0.size
        + 10) * SCALE
}

/// The pair overlaps when both axis gaps are negative.
pub open spec fn sep_overlaps(c1: Components, c2: Components) -> bool {
    sep_gap_x(c1, c2) < 0 && sep_gap_y(c1, c2) < 0
}

/// Magnitude of one pair's push: the gap vector's length, scaled by one
/// hundredth (truncated).
pub open spec fn sep_push_mag(c1: Components, c2: Components) -> int {
    crate::math::ceil_sqrt_spec(
        sep_gap_x(c1, c2) * sep_gap_x(c1, c2) + sep_gap_y(c1, c2) * sep_gap_y(c1, c2),
    ) / 100
}

/// An admissible push direction: the center difference, or — when the two
/// centers coincide — a random direction with both coordinates forced
/// nonzero and at most one unit.
pub open spec fn sep_dir_ok(c1: Components, c2: Components, d: Vec2i) -> bool {
    if c1.pos->0 == c2.pos->0 {
        d.x != 0 && d.y != 0 && -SCALE <= d.x <= SCALE && -SCALE <= d.y <= SCALE
    } else {
        d.x == c1.pos->0.x - c2.pos->0.x && d.y == c1.pos->0.y - c2.pos->0.y
    }
}

/// The separation velocity of entity `e1` after considering partners
/// `0 .. k`: every distinct overlapping enemy adds its push — the pair's
/// direction rescaled onto the pair's push magnitude — with each
/// coordinate clamped at `VEL_CAP`.
pub open spec fn sep_accum(
    s: Seq<Option<Components>>,
    p_size: u32,
    e1: int,
    dirs: Seq<Vec2i>,
    k: int,
    v: Vec2i,
) -> Vec2i
    decreases k,
{
    if k <= 0 {
        v
    } else {
        let prev = sep_accum(s, p_size, e1, dirs, k - 1, v);
        if k - 1 != e1 && 0 <= e1 < s.len() && s[e1] is Some && 0 <= k - 1 < s.len() && s[k
            - 1] is Some && s[k - 1]->0.role == Some(Role::Enemy) && sep_overlaps(
            s[e1]->0,
            s[k - 1]->0,
        ) {
            let d = dirs[k - 1];
            let mg = sep_push_mag(s[e1]->0, s[k - 1]->0);
            Vec2i {
                x: clamped(prev.x + rescaled_coord(d.x as int, mag_sq(d), mg), VEL_CAP as int) as i64,
                y: clamped(prev.y + rescaled_coord(d.y as int, mag_sq(d), mg), VEL_CAP as int) as i64,
            }
        } else {
            prev
        }
    }
}

/// An enemy with no overlapping partner keeps its velocity: the
/// separation accumulation over partners without overlap is the identity.
pub proof fn lemma_sep_accum_no_overlap(
    s: Seq<Option<Components>>,
    p_size: u32,
    e1: int,
    dirs: Seq<Vec2i>,
    k: int,
    v: Vec2i,
)
    requires
        forall|m: int|
            0 <= m < k && m != e1 && s[m] is Some && (#[trigger] s[m])->0.role == Some(
                Role::Enemy,
            ) && 0 <= e1 < s.len() && s[e1] is Some ==> !sep_overlaps(s[e1]->0, s[m]->0),
    ensures
        sep_accum(s, p_size, e1, dirs, k, v) == v,
    decreases k,
{
    if k > 0 {
        lemma_sep_accum_no_overlap(s, p_size, e1, dirs, k - 1, v);
    }
}

/// The accumulation reads only the first `k` directions.
pub proof fn lemma_sep_accum_prefix(
    s: Seq<Option<Components>>,
    p_size: u32,
    e1: int,
    d1: Seq<Vec2i>,
    d2: Seq<Vec2i>,
    k: int,
    v: Vec2i,
)
    requires
        forall|m: int| 0 <= m < k ==> d1[m] == d2[m],
    ensures
        sep_accum(s, p_size, e1, d1, k, v) == sep_accum(s, p_size, e1, d2, k, v),
    decreases k,
{
    if k > 0 {
        lemma_sep_accum_prefix(s, p_size, e1, d1, d2, k - 1, v);
    }
}

/// Chebyshev distance, executable.
pub fn cheb_exec(a: Vec2i, b: Vec2i) -> (r: i64)
    requires
        in_bounds(a),
        in_bounds(b),
    ensures
        r as int == cheb(a, b),
        0 <= r <= 2_000_000,
{
    let mut dx = a.x - b.x;
    if dx < 0 {
        dx = -dx;
    }
    let mut dy = a.y - b.y;
    if dy < 0 {
        dy = -dy;
    }
    if dx > dy {
        dx
    } else {
        dy
    }
}

impl GameState {
    /// Decides, from the pre-tick snapshot of the player, which entities
    /// are nommed this tick: each overlapped enemy the player may eat, and
    /// the player itself once for every overlapping enemy that outsizes it.
    pub fn collect_noms(&self, p_pos: Vec2i, p: Nommer) -> (nommed: Vec<usize>)
        requires
            self.wf(),
            in_bounds(p_pos),
        ensures
            forall|j: int|
                0 <= j < nommed@.len() ==> nommed@[j] == self.player || (self.is_enemy(
                    #[trigger] nommed@[j] as int,
                ) && player_eats(p, self.c(nommed@[j] as int).nommer->0) && nom_overlap(
                    p_pos,
                    self.c(nommed@[j] as int).pos->0,
                    p.size,
                    self.c(nommed@[j] as int).nommer->0.size,
                )),
            forall|i: int|
                #[trigger] self.is_enemy(i) ==> ((self.is_enemy(i) && player_eats(
                    p,
                    self.c(i).nommer->0,
                ) && nom_overlap(p_pos, self.c(i).pos->0, p.size, self.c(i).nommer->0.size))
                    <==> exists|j: int| 0 <= j < nommed@.len() && #[trigger] nommed@[j] as int
                    == i),
            (exists|i: int|
                #[trigger] self.is_enemy(i) && enemy_eats(p, self.c(i).nommer->0) && nom_overlap(
                    p_pos,
                    self.c(i).pos->0,
                    p.size,
                    self.c(i).nommer->0.size,
                )) <==> (exists|j: int|
                0 <= j < nommed@.len() && #[trigger] nommed@[j] == self.player),
            forall|j: int, k: int|
                0 <= j < k < nommed@.len() ==> nommed@[j] != nommed@[k] || nommed@[j]
                    == self.player,
    {
        let mut nommed: Vec<usize> = Vec::new();
        let n = self.world.len();
        let mut i: usize = 0;
        while i < n
            invariant
                self.wf(),
                in_bounds(p_pos),
                n == self.world.slots@.len(),
                i <= n,
                forall|j: int|
                    0 <= j < nommed@.len() ==> nommed@[j] == self.player || (self.is_enemy(
                        #[trigger] nommed@[j] as int,
                    ) && player_eats(p, self.c(nommed@[j] as int).nommer->0) && nom_overlap(
                        p_pos,
                        self.c(nommed@[j] as int).pos->0,
                        p.size,
                        self.c(nommed@[j] as int).nommer->0.size,
                    )),
                forall|j: int|
                    0 <= j < nommed@.len() ==> nommed@[j] == self.player || (#[trigger] nommed@[j]
                        as int) < i,
                forall|m: int|
                    0 <= m < i && #[trigger] self.is_enemy(m) ==> ((player_eats(
                        p,
                        self.c(m).nommer->0,
                    ) && nom_overlap(p_pos, self.c(m).pos->0, p.size, self.c(m).nommer->0.size))
                        <==> exists|j: int| 0 <= j < nommed@.len() && #[trigger] nommed@[j] as int
                        == m),
                (exists|m: int|
                    0 <= m < i && #[trigger] self.is_enemy(m) && enemy_eats(
                        p,
                        self.c(m).nommer->0,
                    ) && nom_overlap(p_pos, self.c(m).pos->0, p.size, self.c(m).nommer->0.size))
                    <==> (exists|j: int|
                    0 <= j < nommed@.len() && #[trigger] nommed@[j] == self.player),
                forall|j: int, k: int|
                    0 <= j < k < nommed@.len() ==> nommed@[j] != nommed@[k] || nommed@[j]
                        == self.player,
            decreases n - i,
        {
            let ghost prev = nommed@;
            let mut eats = false;
            let mut hits = false;
            if self.world.slots[i].is_some() {
                let c = self.world.get(i);
                if matches!(c.role, Some(Role::Enemy)) {
                    proof {
                        assert(self.ent_ok(i as int));
                    }
                    let en = c.nommer.unwrap();
                    let e_pos = c.pos.unwrap();
                    let d = cheb_exec(p_pos, e_pos);
                    let overlap = d < (p.size as i64 + en.size as i64 + 2) * SCALE;
                    eats = (p.size > en.size || p.powerup_remaining > 0) && en.i_frames == 0
                        && overlap;
                    hits = en.size > p.size && p.i_frames == 0 && overlap;
                    if eats {
                        nommed.push(i);
                    }
                    if hits {
                        nommed.push(self.player);
                    }
                }
            }
            proof {
                assert(!self.is_enemy(self.player as int));
                assert(forall|j: int| 0 <= j < prev.len() ==> nommed@[j] == prev[j]);
                assert(eats ==> self.is_enemy(i as int) && player_eats(p, self.c(i as int).nommer->0)
                    && nom_overlap(
                    p_pos,
                    self.c(i as int).pos->0,
                    p.size,
                    self.c(i as int).nommer->0.size,
                ));
                assert(hits ==> self.is_enemy(i as int) && enemy_eats(p, self.c(i as int).nommer->0)
                    && nom_overlap(
                    p_pos,
                    self.c(i as int).pos->0,
                    p.size,
                    self.c(i as int).nommer->0.size,
                ));
                assert forall|m: int|
                    0 <= m < i + 1 && #[trigger] self.is_enemy(m) implies ((player_eats(
                        p,
                        self.c(m).nommer->0,
                    ) && nom_overlap(p_pos, self.c(m).pos->0, p.size, self.c(m).nommer->0.size))
                        <==> exists|j: int|
                        0 <= j < nommed@.len() && #[trigger] nommed@[j] as int == m) by {
                    if m == i as int {
                        if eats {
                            assert(nommed@[prev.len() as int] as int == m);
                        } else {
                            assert(forall|j: int|
                                0 <= j < nommed@.len() ==> #[trigger] nommed@[j] as int != m);
                        }
                    } else {
                        if self.is_enemy(m) && player_eats(p, self.c(m).nommer->0) && nom_overlap(
                            p_pos,
                            self.c(m).pos->0,
                            p.size,
                            self.c(m).nommer->0.size,
                        ) {
                            let j = choose|j: int|
                                0 <= j < prev.len() && #[trigger] prev[j] as int == m;
                            assert(nommed@[j] as int == m);
                        }
                    }
                }
                if hits {
                    assert(nommed@[nommed@.len() - 1] == self.player);
                }
                if exists|m: int|
                    0 <= m < i + 1 && #[trigger] self.is_enemy(m) && enemy_eats(
                        p,
                        self.c(m).nommer->0,
                    ) && nom_overlap(p_pos, self.c(m).pos->0, p.size, self.c(m).nommer->0.size) {
                    let m = choose|m: int|
                        0 <= m < i + 1 && #[trigger] self.is_enemy(m) && enemy_eats(
                            p,
                            self.c(m).nommer->0,
                        ) && nom_overlap(
                            p_pos,
                            self.c(m).pos->0,
                            p.size,
                            self.c(m).nommer->0.size,
                        );
                    if m == i as int {
                        assert(hits);
                        assert(nommed@[nommed@.len() - 1] == self.player);
                    } else {
                        let j = choose|j: int|
                            0 <= j < prev.len() && #[trigger] prev[j] == self.player;
                        assert(nommed@[j] == self.player);
                    }
                }
                if exists|j: int|
                    0 <= j < nommed@.len() && #[trigger] nommed@[j] == self.player {
                    let j = choose|j: int|
                        0 <= j < nommed@.len() && #[trigger] nommed@[j] == self.player;
                    if j < prev.len() {
                        assert(prev[j] == self.player);
                    } else {
                        assert(hits);
                    }
                }
            }
            i = i + 1;
        }
        nommed
    }
}

impl GameState {
    /// Applies the accumulated nom decisions: a player entry shrinks the
    /// player (only when neither invulnerable nor powered up), grants the
    /// invulnerability window and may end the session; an enemy entry grows
    /// the player (unless powered up, capped) and despawns the enemy.
    #[verifier::rlimit(100)]
    pub fn apply_noms(&mut self, nommed: &Vec<usize>)
        requires
            old(self).wf(),
            forall|j: int|
                0 <= j < nommed@.len() ==> nommed@[j] == old(self).player || old(self).is_enemy(
                    #[trigger] nommed@[j] as int,
                ),
            forall|j: int, k: int|
                0 <= j < k < nommed@.len() ==> nommed@[j] != nommed@[k] || nommed@[j] == old(self).player,
        ensures
            final(self).wf(),
            final(self).tick == old(self).tick,
            final(self).player == old(self).player,
            final(self).powerup_timer == old(self).powerup_timer,
            final(self).enemy_spawn_timer == old(self).enemy_spawn_timer,
            final(self).rng == old(self).rng,
            final(self).n_slots() == old(self).n_slots(),
            forall|i: int|
                0 <= i < old(self).n_slots() && i != old(self).player as int && !(exists|j: int|
                    0 <= j < nommed@.len() && #[trigger] nommed@[j] as int == i)
                    ==> #[trigger] final(self).world.slots@[i] == old(self).world.slots@[i],
            forall|i: int|
                old(self).is_enemy(i) && (exists|j: int|
                    0 <= j < nommed@.len() && #[trigger] nommed@[j] as int == i) ==> !final(self).live(i),
            final(self).live(old(self).player as int),
            final(self).c(old(self).player as int) == (Components {
                nommer: final(self).c(old(self).player as int).nommer,
                ..old(self).c(old(self).player as int)
            }),
            final(self).p_nommer().powerup_remaining == old(self).p_nommer().powerup_remaining,
            old(self).p_nommer().powerup_remaining > 0 ==> final(self).p_nommer() == old(self).p_nommer() && final(self).game_over == old(self).game_over && final(self).restart_timer == old(self).restart_timer,
            !(exists|j: int|
                0 <= j < nommed@.len() && #[trigger] nommed@[j] == old(self).player) && old(self).p_nommer().powerup_remaining == 0 ==> final(self).p_nommer().size as int == (
            if old(self).p_nommer().size + NOM_GROWTH * enemy_entries(nommed@, old(self).player, nommed@.len() as int) <= PLAYER_MAX_SIZE {
                old(self).p_nommer().size + NOM_GROWTH * enemy_entries(nommed@, old(self).player, nommed@.len() as int)
            } else {
                PLAYER_MAX_SIZE as int
            }),
            (!(exists|j: int|
                0 <= j < nommed@.len() && #[trigger] nommed@[j] == old(self).player) || old(self).p_nommer().i_frames > 0 || old(self).p_nommer().powerup_remaining > 0) ==> final(self).p_nommer().i_frames == old(self).p_nommer().i_frames && final(self).game_over == old(self).game_over && final(self).restart_timer == old(self).restart_timer && final(self).p_nommer().size >= old(self).p_nommer().size,
            nommed@.len() == 1 && nommed@[0] != old(self).player && old(self).p_nommer().powerup_remaining == 0 ==> final(self).p_nommer().size as int == (
            if old(self).p_nommer().size + NOM_GROWTH <= PLAYER_MAX_SIZE {
                old(self).p_nommer().size + NOM_GROWTH
            } else {
                PLAYER_MAX_SIZE as int
            }),
            nommed@.len() == 1 && nommed@[0] == old(self).player && old(self).p_nommer().i_frames
                == 0 && old(self).p_nommer().powerup_remaining == 0 && old(self).p_nommer().size
                >= PLAYER_MIN_SIZE ==> {
                &&& final(self).p_nommer().size as int == old(self).p_nommer().size - NOM_GROWTH
                &&& final(self).p_nommer().i_frames == PLAYER_I_FRAMES
                &&& final(self).game_over == (old(self).game_over || old(self).p_nommer().size
                    - NOM_GROWTH < PLAYER_MIN_SIZE)
                &&& (old(self).p_nommer().size - NOM_GROWTH < PLAYER_MIN_SIZE ==> final(self).restart_timer == RESTART_TIME)
                &&& (old(self).p_nommer().size - NOM_GROWTH >= PLAYER_MIN_SIZE ==> final(self).restart_timer == old(self).restart_timer)
            },
    {
        let ghost pl = old(self).player as int;
        let nn = nommed.len();
        let mut j: usize = 0;
        while j < nn
            invariant
                old(self).wf(),
                pl == old(self).player as int,
                nn == nommed@.len(),
                j <= nn,
                forall|k: int|
                    0 <= k < nommed@.len() ==> nommed@[k] == old(self).player || old(self).is_enemy(#[trigger] nommed@[k] as int),
                forall|k: int, k2: int|
                    0 <= k < k2 < nommed@.len() ==> nommed@[k] != nommed@[k2] || nommed@[k] == old(self).player,
                self.tick == old(self).tick,
                self.player == old(self).player,
                self.powerup_timer == old(self).powerup_timer,
                self.enemy_spawn_timer == old(self).enemy_spawn_timer,
                self.rng == old(self).rng,
                self.world.slots@.len() == old(self).world.slots@.len(),
                forall|i: int|
                    0 <= i < old(self).n_slots() && i != pl && !(exists|k: int|
                        0 <= k < j && #[trigger] nommed@[k] as int == i)
                        ==> #[trigger] self.world.slots@[i] == old(self).world.slots@[i],
                forall|i: int|
                    old(self).is_enemy(i) && (exists|k: int|
                        0 <= k < j && #[trigger] nommed@[k] as int == i) ==> !self.live(i),
                forall|i: int| self.live(i) ==> old(self).live(i),
                self.live(pl),
                self.c(pl) == (Components { nommer: self.c(pl).nommer, ..old(self).c(pl) }),
                self.p_nommer().powerup_remaining == old(self).p_nommer().powerup_remaining,
                old(self).p_nommer().powerup_remaining > 0 ==> self.p_nommer() == old(self).p_nommer() && self.game_over == old(self).game_over && self.restart_timer == old(self).restart_timer,
                (!(exists|k: int|
                    0 <= k < j && #[trigger] nommed@[k] == old(self).player) || old(self).p_nommer().i_frames > 0 || old(self).p_nommer().powerup_remaining > 0)
                    ==> self.p_nommer().i_frames == old(self).p_nommer().i_frames
                    && self.game_over == old(self).game_over && self.restart_timer == old(self).restart_timer && self.p_nommer().size >= old(self).p_nommer().size,
                self.c(pl).nommer is Some,
                !(exists|k: int|
                    0 <= k < j && #[trigger] nommed@[k] == old(self).player) && old(self).p_nommer().powerup_remaining == 0 ==> self.p_nommer().size as int == (
                if old(self).p_nommer().size + NOM_GROWTH * enemy_entries(nommed@, old(self).player, j as int) <= PLAYER_MAX_SIZE {
                    old(self).p_nommer().size + NOM_GROWTH * enemy_entries(nommed@, old(self).player, j as int)
                } else {
                    PLAYER_MAX_SIZE as int
                }),
                self.p_nommer().i_frames == old(self).p_nommer().i_frames
                    || self.p_nommer().i_frames == PLAYER_I_FRAMES,
                self.p_nommer().i_frames == 0 && self.p_nommer().powerup_remaining == 0
                    ==> self.game_over == old(self).game_over,
                self.p_nommer().size <= PLAYER_MAX_SIZE,
                self.p_nommer().size >= old(self).p_nommer().size || (self.p_nommer().i_frames
                    == PLAYER_I_FRAMES && self.p_nommer().size >= old(self).p_nommer().size
                    - NOM_GROWTH),
                j == 0 ==> self.p_nommer() == old(self).p_nommer() && self.game_over == old(self).game_over && self.restart_timer == old(self).restart_timer,
                self.p_nommer().size >= PLAYER_MIN_SIZE || self.game_over,
                self.p_nommer().size >= PLAYER_MIN_SIZE - NOM_GROWTH,
                nn == 1 && nommed@[0] != old(self).player && old(self).p_nommer().powerup_remaining == 0 && j == 1 ==> self.p_nommer().size as int == (
                if old(self).p_nommer().size + NOM_GROWTH <= PLAYER_MAX_SIZE {
                    old(self).p_nommer().size + NOM_GROWTH
                } else {
                    PLAYER_MAX_SIZE as int
                }),
                nn == 1 && nommed@[0] == old(self).player && old(self).p_nommer().i_frames == 0
                    && old(self).p_nommer().powerup_remaining == 0 && old(self).p_nommer().size
                    >= PLAYER_MIN_SIZE && j == 1 ==> {
                    &&& self.p_nommer().size as int == old(self).p_nommer().size - NOM_GROWTH
                    &&& self.p_nommer().i_frames == PLAYER_I_FRAMES
                    &&& self.game_over == (old(self).game_over || old(self).p_nommer().size
                        - NOM_GROWTH < PLAYER_MIN_SIZE)
                    &&& (old(self).p_nommer().size - NOM_GROWTH < PLAYER_MIN_SIZE
                        ==> self.restart_timer == RESTART_TIME)
                    &&& (old(self).p_nommer().size - NOM_GROWTH >= PLAYER_MIN_SIZE
                        ==> self.restart_timer == old(self).restart_timer)
                },
            decreases nn - j,
        {
            let ghost pre = *self;
            let entry = nommed[j];
            proof {
                assert(self.player == old(self).player);
                assert(self.live(pl));
                assert(self.world.live(self.player as int));
                assert(self.c(pl).nommer is Some);
            }
            if entry == self.player {
                let c = self.world.get(self.player);
                let mut nm = c.nommer.unwrap();
                if nm.i_frames == 0 && nm.powerup_remaining == 0 && nm.size >= PLAYER_MIN_SIZE {
                    nm.size = nm.size - NOM_GROWTH;
                    nm.i_frames = PLAYER_I_FRAMES;
                    if nm.size < PLAYER_MIN_SIZE {
                        self.game_over = true;
                        self.restart_timer = RESTART_TIME;
                    }
                    let id = self.player;
                    self.world.attach_nommer(id, nm);
                }
            } else {
                proof {
                    assert(old(self).is_enemy(entry as int));
                }
                let c = self.world.get(self.player);
                let mut nm = c.nommer.unwrap();
                if nm.powerup_remaining == 0 {
                    nm.size = nm.size + NOM_GROWTH;
                    if nm.size > PLAYER_MAX_SIZE {
                        nm.size = PLAYER_MAX_SIZE;
                    }
                    let id = self.player;
                    self.world.attach_nommer(id, nm);
                }
                if self.world.slots[entry].is_some() {
                    self.world.destroy(entry);
                }
            }
            proof {
                assert forall|i: int|
                    0 <= i < old(self).n_slots() && i != pl && !(exists|k: int|
                        0 <= k < j + 1 && #[trigger] nommed@[k] as int == i) implies
                    #[trigger] self.world.slots@[i] == old(self).world.slots@[i] by {
                    assert(!(exists|k: int| 0 <= k < j && nommed@[k] as int == i));
                    assert(nommed@[j as int] as int != i);
                    assert(pre.world.slots@[i] == old(self).world.slots@[i]);
                }
                assert forall|i: int|
                    old(self).is_enemy(i) && (exists|k: int|
                        0 <= k < j + 1 && #[trigger] nommed@[k] as int == i) implies !self.live(
                    i,
                ) by {
                    if exists|k: int| 0 <= k < j && #[trigger] nommed@[k] as int == i {
                        assert(!pre.live(i));
                    }
                }
            }
            j = j + 1;
        }
        proof {
            assert(self.player_ok());
            assert forall|i2: int| self.live(i2) implies #[trigger] self.ent_ok(i2) by {
                assert(old(self).live(i2));
                assert(old(self).ent_ok(i2));
                if i2 != pl {
                    assert(self.world.slots@[i2] == old(self).world.slots@[i2]) by {
                        if exists|k: int| 0 <= k < nn && #[trigger] nommed@[k] as int == i2 {
                            assert(old(self).is_enemy(i2));
                            assert(!self.live(i2));
                        }
                    }
                }
            }
        }
    }
}

/// Two states with the same world and player are equally well-formed; a
/// session that entered game-over stays well-formed too.
pub proof fn lemma_wf_same_world(a: GameState, b: GameState)
    requires
        a.wf(),
        b.world == a.world,
        b.player == a.player,
        b.game_over == a.game_over || b.game_over,
    ensures
        b.wf(),
{
    assert forall|i: int| b.live(i) implies #[trigger] b.ent_ok(i) by {
        assert(a.ent_ok(i));
    }
}

/// Power-up collection overlap: Chebyshev distance under the player size
/// plus a fixed margin plus the power-up size, in stored units.
pub open spec fn powerup_overlap(p_pos: Vec2i, q: Vec2i, p_size: u32) -> bool {
    cheb(p_pos, q) < (p_size + 5 + POWERUP_SIZE) * SCALE
}

impl GameState {
    /// Collects every power-up the player overlaps: each is destroyed, and
    /// the player's power-up duration is set (overwritten) if any was hit.
    pub fn powerup_collect_step(&mut self)
        requires
            old(self).wf(),
        ensures
            final(self).wf(),
            same_but_world(*final(self), *old(self)),
            final(self).n_slots() == old(self).n_slots(),
            forall|i: int|
                #[trigger] old(self).is_powerup(i) ==> (final(self).live(i) <==> !powerup_overlap(
                    old(self).p_pos(),
                    old(self).c(i).pos->0,
                    old(self).p_nommer().size,
                )),
            forall|i: int|
                #[trigger] old(self).is_powerup(i) && final(self).live(i) ==> final(self).c(i)
                    == old(self).c(i),
            forall|i: int|
                0 <= i < old(self).n_slots() && !old(self).is_powerup(i) && i != old(self).player as int ==> #[trigger] final(self).world.slots@[i] == old(self).world.slots@[i],
            final(self).live(old(self).player as int),
            final(self).c(old(self).player as int) == (Components {
                nommer: final(self).c(old(self).player as int).nommer,
                ..old(self).c(old(self).player as int)
            }),
            final(self).p_nommer().size == old(self).p_nommer().size,
            final(self).p_nommer().i_frames == old(self).p_nommer().i_frames,
            final(self).p_nommer().powerup_remaining == (if exists|i: int|
                #[trigger] old(self).is_powerup(i) && powerup_overlap(
                    old(self).p_pos(),
                    old(self).c(i).pos->0,
                    old(self).p_nommer().size,
                ) {
                POWERUP_DURATION
            } else {
                old(self).p_nommer().powerup_remaining
            }),
    {
        proof {
            assert(old(self).ent_ok(old(self).player as int));
        }
        let pc = self.world.get(self.player);
        let p_pos = pc.pos.unwrap();
        let p_n = pc.nommer.unwrap();
        let n = self.world.len();
        let mut collected: Vec<usize> = Vec::new();
        let mut i: usize = 0;
        while i < n
            invariant
                self.wf(),
                self == old(self),
                p_pos == self.p_pos(),
                in_bounds(p_pos),
                p_n == self.p_nommer(),
                n == self.world.slots@.len(),
                i <= n,
                forall|k: int, k2: int|
                    0 <= k < k2 < collected@.len() ==> collected@[k] < collected@[k2],
                forall|k: int|
                    0 <= k < collected@.len() ==> (#[trigger] collected@[k] as int) < i,
                forall|k: int|
                    0 <= k < collected@.len() ==> self.is_powerup(
                        #[trigger] collected@[k] as int,
                    ) && powerup_overlap(p_pos, self.c(collected@[k] as int).pos->0, p_n.size),
                forall|m: int|
                    0 <= m < i && #[trigger] self.is_powerup(m) && powerup_overlap(
                        p_pos,
                        self.c(m).pos->0,
                        p_n.size,
                    ) ==> exists|k: int|
                        0 <= k < collected@.len() && #[trigger] collected@[k] as int == m,
            decreases n - i,
        {
            if self.world.slots[i].is_some() {
                let c = self.world.get(i);
                if matches!(c.role, Some(Role::Powerup)) {
                    proof {
                        assert(self.ent_ok(i as int));
                    }
                    let q = c.pos.unwrap();
                    let d = cheb_exec(p_pos, q);
                    if d < (p_n.size as i64 + 5 + POWERUP_SIZE as i64) * SCALE {
                        let ghost prev = collected@;
                        collected.push(i);
                        proof {
                            assert forall|m: int|
                                0 <= m < i + 1 && #[trigger] self.is_powerup(m) && powerup_overlap(
                                    p_pos,
                                    self.c(m).pos->0,
                                    p_n.size,
                                ) implies exists|k: int|
                                0 <= k < collected@.len() && #[trigger] collected@[k] as int
                                    == m by {
                                if m == i as int {
                                    assert(collected@[prev.len() as int] as int == m);
                                } else {
                                    let k = choose|k: int|
                                        0 <= k < prev.len() && #[trigger] prev[k] as int == m;
                                    assert(collected@[k] as int == m);
                                }
                            }
                        }
                    }
                }
            }
            i = i + 1;
        }
        let nc = collected.len();
        let mut k: usize = 0;
        while k < nc
            invariant
                old(self).wf(),
                nc == collected@.len(),
                k <= nc,
                same_but_world(*self, *old(self)),
                self.world.slots@.len() == old(self).world.slots@.len(),
                forall|k2: int, k3: int|
                    0 <= k2 < k3 < collected@.len() ==> collected@[k2] < collected@[k3],
                forall|k2: int|
                    0 <= k2 < collected@.len() ==> old(self).is_powerup(
                        #[trigger] collected@[k2] as int,
                    ) && powerup_overlap(
                        old(self).p_pos(),
                        old(self).c(collected@[k2] as int).pos->0,
                        old(self).p_nommer().size,
                    ),
                forall|m: int|
                    #[trigger] old(self).is_powerup(m) && powerup_overlap(
                        old(self).p_pos(),
                        old(self).c(m).pos->0,
                        old(self).p_nommer().size,
                    ) ==> exists|k2: int|
                        0 <= k2 < collected@.len() && #[trigger] collected@[k2] as int == m,
                forall|i2: int|
                    0 <= i2 < old(self).n_slots() && !(exists|k2: int|
                        0 <= k2 < k && #[trigger] collected@[k2] as int == i2)
                        ==> #[trigger] self.world.slots@[i2] == old(self).world.slots@[i2],
                forall|k2: int| 0 <= k2 < k ==> !self.live(#[trigger] collected@[k2] as int),
            decreases nc - k,
        {
            let ghost pre = *self;
            let id = collected[k];
            if self.world.slots[id].is_some() {
                self.world.destroy(id);
            }
            proof {
                assert forall|i2: int|
                    0 <= i2 < old(self).n_slots() && !(exists|k2: int|
                        0 <= k2 < k + 1 && #[trigger] collected@[k2] as int == i2) implies
                    #[trigger] self.world.slots@[i2] == old(self).world.slots@[i2] by {
                    assert(collected@[k as int] as int != i2);
                    assert(pre.world.slots@[i2] == old(self).world.slots@[i2]);
                }
                assert forall|k2: int| 0 <= k2 < k + 1 implies !self.live(
                    #[trigger] collected@[k2] as int,
                ) by {
                    if k2 < k {
                        assert(!pre.live(collected@[k2] as int));
                    }
                }
            }
            k = k + 1;
        }
        proof {
            assert(!(exists|k2: int|
                0 <= k2 < nc && #[trigger] collected@[k2] as int == old(self).player as int)) by {
                assert(!old(self).is_powerup(old(self).player as int));
            }
            assert(self.live(old(self).player as int));
        }
        if nc > 0 {
            let id = self.player;
            let c = self.world.get(id);
            let mut nm = c.nommer.unwrap();
            nm.powerup_remaining = POWERUP_DURATION;
            self.world.attach_nommer(id, nm);
            proof {
                assert(old(self).is_powerup(collected@[0] as int) && powerup_overlap(
                    old(self).p_pos(),
                    old(self).c(collected@[0] as int).pos->0,
                    old(self).p_nommer().size,
                ));
            }
        }
        proof {
            assert forall|i2: int| self.live(i2) implies #[trigger] self.ent_ok(i2) by {
                assert(old(self).live(i2));
                assert(old(self).ent_ok(i2));
                if i2 != old(self).player as int {
                    if exists|k2: int| 0 <= k2 < nc && #[trigger] collected@[k2] as int == i2 {
                        assert(!self.live(i2));
                    } else {
                        assert(self.world.slots@[i2] == old(self).world.slots@[i2]);
                    }
                }
            }
        }
    }

    /// Spawns one power-up at a random arena position when the spawn timer
    /// fires, resetting the timer, which counts down while the session runs.
    pub fn powerup_spawn_step(&mut self)
        requires
            old(self).wf(),
        ensures
            final(self).wf(),
            final(self).tick == old(self).tick,
            final(self).player == old(self).player,
            final(self).game_over == old(self).game_over,
            final(self).restart_timer == old(self).restart_timer,
            final(self).enemy_spawn_timer == old(self).enemy_spawn_timer,
            final(self).powerup_timer as int == (if old(self).powerup_timer == 0 {
                POWERUP_TIMER as int
            } else {
                old(self).powerup_timer as int
            }) - (if old(self).game_over {
                0int
            } else {
                1int
            }),
            old(self).powerup_timer == 0 ==> {
                &&& final(self).n_slots() == old(self).n_slots() + 1
                &&& (forall|i: int|
                    0 <= i < old(self).n_slots() ==> #[trigger] final(self).world.slots@[i] == old(self).world.slots@[i])
                &&& final(self).is_powerup(old(self).n_slots())
                &&& in_bounds(final(self).c(old(self).n_slots()).pos->0)
                &&& final(self).c(old(self).n_slots()).nommer is None
                &&& final(self).c(old(self).n_slots()).vel is None
            },
            old(self).powerup_timer != 0 ==> final(self).world.slots@ == old(self).world.slots@,
    {
        if self.powerup_timer == 0 {
            let x = self.rng.between(-ARENA_HALF_X, ARENA_HALF_X);
            let y = self.rng.between(-ARENA_HALF_Y, ARENA_HALF_Y);
            let id = self.world.create();
            self.world.attach_role(id, Role::Powerup);
            self.world.attach_pos(id, Vec2i { x, y });
            self.world.attach_visual(id, Visual { color: ColorKind::Green });
            self.powerup_timer = POWERUP_TIMER;
            proof {
                assert(self.live(id as int));
                assert(self.ent_ok(id as int));
            }
        }
        if !self.game_over {
            self.powerup_timer = self.powerup_timer - 1;
        }
        proof {
            assert forall|i2: int| self.live(i2) implies #[trigger] self.ent_ok(i2) by {
                if 0 <= i2 < old(self).n_slots() {
                    assert(old(self).live(i2));
                    assert(old(self).ent_ok(i2));
                }
            }
        }
    }

    /// Spawns a random batch of fresh enemies when the spawn timer fires
    /// (each with the initial size, zero velocity and zero timers, at a
    /// random arena position), resetting the timer to a random duration.
    #[verifier::rlimit(100)]
    pub fn enemy_spawn_step(&mut self)
        requires
            old(self).wf(),
        ensures
            final(self).wf(),
            final(self).tick == old(self).tick,
            final(self).player == old(self).player,
            final(self).game_over == old(self).game_over,
            final(self).restart_timer == old(self).restart_timer,
            final(self).powerup_timer == old(self).powerup_timer,
            old(self).enemy_spawn_timer == 0 ==> {
                &&& old(self).n_slots() + ENEMY_SPAWN_AMOUNT_MIN <= final(self).n_slots() <= old(self).n_slots() + ENEMY_SPAWN_AMOUNT_MAX
                &&& (forall|i: int|
                    0 <= i < old(self).n_slots() ==> #[trigger] final(self).world.slots@[i] == old(self).world.slots@[i])
                &&& (forall|i: int|
                    old(self).n_slots() <= i < final(self).n_slots() ==> {
                        let c = #[trigger] final(self).c(i);
                        &&& final(self).is_enemy(i)
                        &&& c.nommer == Some(Nommer { size: ENEMY_INIT_SIZE, i_frames: 0, powerup_remaining: 0 })
                        &&& c.vel == Some(Vec2i { x: 0, y: 0 })
                        &&& c.pos is Some
                        &&& in_bounds(c.pos->0)
                    })
                &&& ENEMY_SPAWN_TIMER_MIN as int - (if old(self).game_over { 0int } else { 1int }) <= final(self).enemy_spawn_timer as int <= ENEMY_SPAWN_TIMER_MAX as int - (if old(self).game_over { 0int } else { 1int })
            },
            old(self).enemy_spawn_timer != 0 ==> final(self).world.slots@ == old(self).world.slots@ && final(self).enemy_spawn_timer as int == old(self).enemy_spawn_timer - (if old(self).game_over {
                0int
            } else {
                1int
            }),
    {
        let ghost mut bb = *self;
        if self.enemy_spawn_timer == 0 {
            let amount = self.rng.between(
                ENEMY_SPAWN_AMOUNT_MIN as i64,
                ENEMY_SPAWN_AMOUNT_MAX as i64,
            );
            proof {
                lemma_wf_same_world(*old(self), *self);
            }
            self.spawn_enemy_batch(amount);
            proof {
                bb = *self;
            }
            let t = self.rng.between(ENEMY_SPAWN_TIMER_MIN as i64, ENEMY_SPAWN_TIMER_MAX as i64);
            self.enemy_spawn_timer = t as u32;
            proof {
                lemma_wf_same_world(bb, *self);
            }
        }
        let ghost dd = *self;
        if !self.game_over {
            self.enemy_spawn_timer = self.enemy_spawn_timer - 1;
            proof {
                lemma_wf_same_world(dd, *self);
            }
        }
        proof {
            if old(self).enemy_spawn_timer == 0 {
                assert(self.world == bb.world);
                assert forall|i: int|
                    old(self).n_slots() <= i < self.n_slots() implies {
                        let c = #[trigger] self.c(i);
                        &&& self.is_enemy(i)
                        &&& c.nommer == Some(Nommer { size: ENEMY_INIT_SIZE, i_frames: 0, powerup_remaining: 0 })
                        &&& c.vel == Some(Vec2i { x: 0, y: 0 })
                        &&& c.pos is Some
                        &&& in_bounds(c.pos->0)
                    } by {
                    assert(self.c(i) == bb.c(i));
                    assert(self.live(i) == bb.live(i));
                    assert(bb.is_enemy(i));
                }
            }
        }
    }

    /// Creates `amount` fresh enemies at random arena positions.
    #[verifier::rlimit(100)]
    pub fn spawn_enemy_batch(&mut self, amount: i64)
        requires
            old(self).wf(),
            0 <= amount <= 100,
        ensures
            final(self).wf(),
            same_but_world_rng(*final(self), *old(self)),
            final(self).n_slots() == old(self).n_slots() + amount,
            forall|i: int|
                0 <= i < old(self).n_slots() ==> #[trigger] final(self).world.slots@[i] == old(
                    self,
                ).world.slots@[i],
            forall|i: int|
                old(self).n_slots() <= i < final(self).n_slots() ==> {
                    let c = #[trigger] final(self).c(i);
                    &&& final(self).is_enemy(i)
                    &&& c.nommer == Some(
                        Nommer { size: ENEMY_INIT_SIZE, i_frames: 0, powerup_remaining: 0 },
                    )
                    &&& c.vel == Some(Vec2i { x: 0, y: 0 })
                    &&& c.pos is Some
                    &&& in_bounds(c.pos->0)
                    &&& c.visual is None
                },
    {
        let mut k: i64 = 0;
        while k < amount
            invariant
                old(self).wf(),
                0 <= k <= amount <= 100,
                same_but_world_rng(*self, *old(self)),
                self.world.slots@.len() == old(self).world.slots@.len() + k,
                forall|i: int|
                    0 <= i < old(self).n_slots() ==> #[trigger] self.world.slots@[i] == old(
                        self,
                    ).world.slots@[i],
                forall|i: int|
                    old(self).n_slots() <= i < self.n_slots() ==> {
                        let c = #[trigger] self.c(i);
                        &&& self.is_enemy(i)
                        &&& c.nommer == Some(
                            Nommer { size: ENEMY_INIT_SIZE, i_frames: 0, powerup_remaining: 0 },
                        )
                        &&& c.vel == Some(Vec2i { x: 0, y: 0 })
                        &&& c.pos is Some
                        &&& in_bounds(c.pos->0)
                        &&& c.visual is None
                    },
            decreases amount - k,
        {
            let ghost pre = *self;
            let x = self.rng.between(-ARENA_HALF_X, ARENA_HALF_X);
            let y = self.rng.between(-ARENA_HALF_Y, ARENA_HALF_Y);
            let id = self.world.create();
            self.world.attach_role(id, Role::Enemy);
            self.world.attach_pos(id, Vec2i { x, y });
            self.world.attach_nommer(
                id,
                Nommer { size: ENEMY_INIT_SIZE, i_frames: 0, powerup_remaining: 0 },
            );
            self.world.attach_vel(id, Vec2i { x: 0, y: 0 });
            proof {
                assert forall|i: int|
                    old(self).n_slots() <= i < self.n_slots() implies {
                        let c = #[trigger] self.c(i);
                        &&& self.is_enemy(i)
                        &&& c.nommer == Some(
                            Nommer { size: ENEMY_INIT_SIZE, i_frames: 0, powerup_remaining: 0 },
                        )
                        &&& c.vel == Some(Vec2i { x: 0, y: 0 })
                        &&& c.pos is Some
                        &&& in_bounds(c.pos->0)
                        &&& c.visual is None
                    } by {
                    if i < pre.n_slots() {
                        assert(pre.is_enemy(i));
                        assert(pre.c(i).nommer == Some(
                            Nommer { size: ENEMY_INIT_SIZE, i_frames: 0, powerup_remaining: 0 },
                        ));
                        assert(self.world.slots@[i] == pre.world.slots@[i]);
                        assert(self.c(i) == pre.c(i));
                    } else {
                        assert(i == id as int);
                        assert(self.c(i).role == Some(Role::Enemy));
                        assert(self.c(i).pos == Some(Vec2i { x, y }));
                        assert(in_bounds(Vec2i { x, y }));
                    }
                }
            }
            k = k + 1;
        }
        proof {
            assert forall|i2: int| self.live(i2) implies #[trigger] self.ent_ok(i2) by {
                if 0 <= i2 < old(self).n_slots() {
                    assert(old(self).live(i2));
                    assert(old(self).ent_ok(i2));
                }
            }
        }
    }

    /// One full simulation tick: the game-over sweep and restart handling,
    /// visual backfill, pointer tracking, periodic enemy growth, steering
    /// and movement, separation, the invulnerability countdown, consumption,
    /// power-up spawning, the power-up duration countdown, power-up
    /// collection, and enemy spawning. The returned ghost trace carries the
    /// intermediate states, and the contract pins each leg of the pass to
    /// its step's relation, so the whole tick is specified end to end.
    #[verifier::rlimit(100)]
    pub fn update(&mut self, px: i64, py: i64) -> (trace: Ghost<TickTrace>)
        requires
            old(self).wf(),
            pointer_ok(px as int),
            pointer_ok(py as int),
        ensures
            final(self).wf(),
            old(self).game_over && old(self).restart_timer == 0 ==> is_initial_state(
                *final(self),
                px as int,
                py as int,
                old(self).rng,
            ),
            final(self).player == old(self).player || (old(self).game_over && old(self).restart_timer == 0),
            !(old(self).game_over && old(self).restart_timer == 0) ==> final(self).tick == (
            if old(self).tick < u128::MAX {
                (old(self).tick + 1) as u128
            } else {
                old(self).tick
            }),
            !(old(self).game_over && old(self).restart_timer == 0) ==> {
                let t = trace@;
                &&& t.start == (GameState {
                    tick: if old(self).tick < u128::MAX {
                        (old(self).tick + 1) as u128
                    } else {
                        old(self).tick
                    },
                    ..*old(self)
                })
                &&& (old(self).game_over ==> sweep_rel(t.start, t.swept) && t.entered == (
                GameState { restart_timer: (t.swept.restart_timer - 1) as u32, ..t.swept }))
                &&& (!old(self).game_over ==> t.swept == t.start && t.entered == t.start)
                &&& backfill_rel(t.entered, t.filled)
                &&& track_rel(t.filled, t.pointed, px as int, py as int)
                &&& (t.start.tick % 15 == 0 ==> growth_rel(t.pointed, t.grown))
                &&& (t.start.tick % 15 != 0 ==> t.grown == t.pointed)
                &&& movement_rel(
                    t.grown,
                    t.moved,
                    t.pointed.p_pos(),
                    t.pointed.p_nommer().size,
                    t.pointed.p_nommer().powerup_remaining,
                )
                &&& separation_rel(t.moved, t.parted, t.pointed.p_nommer().size, t.sep_dirs)
                &&& (!t.parted.game_over ==> iframe_rel(t.parted, t.counted))
                &&& (t.parted.game_over ==> t.counted == t.parted)
                &&& collect_rel(t.counted, t.nommed, t.counted.p_pos(), t.counted.p_nommer())
                &&& apply_rel(t.counted, t.applied, t.nommed)
                &&& pspawn_rel(t.applied, t.pspawned)
                &&& (!t.pspawned.game_over ==> pduration_rel(t.pspawned, t.pticked))
                &&& (t.pspawned.game_over ==> t.pticked == t.pspawned)
                &&& pcollect_rel(t.pticked, t.collected)
                &&& espawn_rel(t.collected, *final(self))
            },
    {
        if self.tick < u128::MAX {
            self.tick = self.tick + 1;
        }
        proof {
            assert forall|i: int| self.live(i) implies #[trigger] self.ent_ok(i) by {
                assert(old(self).ent_ok(i));
            }
            assert(self.wf());
        }
        let ghost t_start = *self;
        let ghost mut t_swept = t_start;
        let ghost mut t_entered = t_start;
        if self.game_over {
            self.sweep_non_player();
            proof {
                t_swept = *self;
            }
            if self.restart_timer == 0 {
                let rng = self.rng;
                *self = GameState::new(px, py, rng);
                return Ghost(trivial_trace(*self));
            }
            let ghost sw = *self;
            self.restart_timer = self.restart_timer - 1;
            proof {
                t_entered = *self;
                assert forall|i: int| self.live(i) implies #[trigger] self.ent_ok(i) by {
                    assert(sw.ent_ok(i));
                }
                assert(self.wf());
            }
        }
        self.backfill_visuals();
        let ghost t_filled = *self;
        self.track_pointer(px, py);
        let ghost t_pointed = *self;
        let pc = self.world.get(self.player);
        let p_pos = pc.pos.unwrap();
        let p_n = pc.nommer.unwrap();
        proof {
            assert(p_pos == t_pointed.p_pos());
            assert(p_n == t_pointed.p_nommer());
        }
        if self.tick % 15 == 0 {
            self.growth_step();
        }
        let ghost t_grown = *self;
        self.movement_step(p_pos, p_n.size, p_n.powerup_remaining);
        let ghost t_moved = *self;
        let sd = self.separation_step(p_n.size);
        let ghost t_parted = *self;
        if !self.game_over {
            self.iframe_step();
        }
        let ghost t_counted = *self;
        let pc2 = self.world.get(self.player);
        let nommed = self.collect_noms(pc2.pos.unwrap(), pc2.nommer.unwrap());
        proof {
            assert(pc2.pos->0 == t_counted.p_pos());
            assert(pc2.nommer->0 == t_counted.p_nommer());
        }
        self.apply_noms(&nommed);
        let ghost t_applied = *self;
        self.powerup_spawn_step();
        let ghost t_pspawned = *self;
        if !self.game_over {
            self.powerup_duration_step();
        }
        let ghost t_pticked = *self;
        self.powerup_collect_step();
        let ghost t_collected = *self;
        self.enemy_spawn_step();
        let ghost tr = TickTrace {
            start: t_start,
            swept: t_swept,
            entered: t_entered,
            filled: t_filled,
            pointed: t_pointed,
            grown: t_grown,
            moved: t_moved,
            parted: t_parted,
            sep_dirs: sd@,
            counted: t_counted,
            nommed: nommed@,
            applied: t_applied,
            pspawned: t_pspawned,
            pticked: t_pticked,
            collected: t_collected,
        };
        proof {
            if old(self).game_over {
                assert(sweep_rel(tr.start, tr.swept));
            }
            assert(backfill_rel(tr.entered, tr.filled));
            assert(track_rel(tr.filled, tr.pointed, px as int, py as int));
            if t_start.tick % 15 == 0 {
                assert(growth_rel(tr.pointed, tr.grown));
            }
            assert(movement_rel(
                tr.grown,
                tr.moved,
                tr.pointed.p_pos(),
                tr.pointed.p_nommer().size,
                tr.pointed.p_nommer().powerup_remaining,
            ));
            assert(separation_rel(tr.moved, tr.parted, tr.pointed.p_nommer().size, tr.sep_dirs));
            if !tr.parted.game_over {
                assert(iframe_rel(tr.parted, tr.counted));
            }
            assert(collect_rel(tr.counted, tr.nommed, tr.counted.p_pos(), tr.counted.p_nommer()));
            assert(apply_rel(tr.counted, tr.applied, tr.nommed));
            assert(pspawn_rel(tr.applied, tr.pspawned));
            if !tr.pspawned.game_over {
                assert(pduration_rel(tr.pspawned, tr.pticked));
            }
            assert(pcollect_rel(tr.pticked, tr.collected));
            assert(espawn_rel(tr.collected, *self));
        }
        Ghost(tr)
    }
}

/// The color the renderer gives the player: green while the power-up runs
/// (over its grace threshold), red while invulnerable (over its grace
/// threshold), else its own visual color.
pub fn player_draw_color(n: Nommer, base: ColorKind) -> (c: ColorKind)
    ensures
        c == (if n.powerup_remaining > 20 {
            ColorKind::Green
        } else if n.i_frames > 5 {
            ColorKind::Red
        } else {
            base
        }),
{
    if n.powerup_remaining > 20 {
        ColorKind::Green
    } else if n.i_frames > 5 {
        ColorKind::Red
    } else {
        base
    }
}

/// The color the renderer gives an enemy: its own visual color while it is
/// safely eatable, the too-big shade otherwise.
pub fn enemy_draw_color(e_size: u32, p_size: u32, base: ColorKind) -> (c: ColorKind)
    ensures
        c == (if e_size + NOM_GROWTH <= p_size {
            base
        } else {
            ColorKind::TooBig
        }),
{
    if e_size <= u32::MAX - NOM_GROWTH && e_size + NOM_GROWTH <= p_size {
        base
    } else {
        ColorKind::TooBig
    }
}


/// Number of enemy entries (non-player entries) among the first `k` nom
/// decisions.
pub open spec fn enemy_entries(s: Seq<usize>, player: usize, k: int) -> int
    decreases k,
{
    if k <= 0 {
        0
    } else {
        enemy_entries(s, player, k - 1) + (if s[k - 1] == player {
            0int
        } else {
            1int
        })
    }
}

/// The game-over safety sweep: every non-player entity destroyed.
pub open spec fn sweep_rel(a: GameState, b: GameState) -> bool {
    &&& same_but_world(b, a)
    &&& b.n_slots() == a.n_slots()
    &&& (forall|i: int|
        0 <= i < a.n_slots() ==> #[trigger] b.world.slots@[i] == (if i == a.player as int {
            a.world.slots@[i]
        } else {
            None::<Components>
        }))
}

/// The visual backfill, slot by slot.
pub open spec fn backfill_rel(a: GameState, b: GameState) -> bool {
    &&& same_but_world(b, a)
    &&& b.n_slots() == a.n_slots()
    &&& (forall|i: int|
        0 <= i < a.n_slots() ==> #[trigger] b.world.slots@[i] == backfilled_slot(
            a.world.slots@[i],
        ))
}

/// The player is moved onto the translated, clamped pointer.
pub open spec fn track_rel(a: GameState, b: GameState, px: int, py: int) -> bool {
    &&& same_but_world(b, a)
    &&& b.n_slots() == a.n_slots()
    &&& (forall|i: int|
        0 <= i < a.n_slots() && i != a.player as int ==> #[trigger] b.world.slots@[i]
            == a.world.slots@[i])
    &&& b.live(a.player as int)
    &&& b.c(a.player as int) == (Components { pos: b.c(a.player as int).pos, ..a.c(a.player as int) })
    &&& b.p_pos().x as int == initial_pos_x(px)
    &&& b.p_pos().y as int == initial_pos_y(py)
}

/// The every-fifteenth-tick enemy growth, slot by slot.
pub open spec fn growth_rel(a: GameState, b: GameState) -> bool {
    &&& same_but_world(b, a)
    &&& b.n_slots() == a.n_slots()
    &&& (forall|i: int|
        0 <= i < a.n_slots() ==> #[trigger] b.world.slots@[i] == grown_slot(a.world.slots@[i]))
}

/// The invulnerability countdown, slot by slot (decrement iff nonzero).
pub open spec fn iframe_rel(a: GameState, b: GameState) -> bool {
    &&& same_but_world(b, a)
    &&& b.n_slots() == a.n_slots()
    &&& (forall|i: int|
        0 <= i < a.n_slots() ==> #[trigger] b.world.slots@[i] == iframe_slot(a.world.slots@[i]))
}

/// The power-up duration countdown, slot by slot (decrement iff nonzero).
pub open spec fn pduration_rel(a: GameState, b: GameState) -> bool {
    &&& same_but_world(b, a)
    &&& b.n_slots() == a.n_slots()
    &&& (forall|i: int|
        0 <= i < a.n_slots() ==> #[trigger] b.world.slots@[i] == powerup_ticked_slot(
            a.world.slots@[i],
        ))
}

/// Steering and movement of every enemy against the player snapshot.
pub open spec fn movement_rel(
    a: GameState,
    b: GameState,
    p_pos: Vec2i,
    p_size: u32,
    p_powerup: u32,
) -> bool {
    &&& same_but_world_rng(b, a)
    &&& b.n_slots() == a.n_slots()
    &&& (forall|i: int|
        0 <= i < a.n_slots() && !a.is_enemy(i) ==> #[trigger] b.world.slots@[i]
            == a.world.slots@[i])
    &&& (forall|i: int|
        a.is_enemy(i) ==> moved_enemy_ok(a.c(i), #[trigger] b.c(i), p_pos, p_size, p_powerup))
    &&& (forall|i: int|
        a.is_enemy(i) && a.c(i).pos->0 != p_pos ==> mag_sq(#[trigger] b.c(i).vel->0)
            <= ENEMY_MAX_SPEED * ENEMY_MAX_SPEED)
    &&& (forall|i: int| a.is_enemy(i) ==> in_bounds(#[trigger] b.c(i).pos->0))
    &&& (forall|i: int| b.live(i) == a.live(i))
}

/// The separation pass: every oversized enemy's velocity accumulates the
/// push of each overlapping pair, along the witnessed directions.
pub open spec fn separation_rel(
    a: GameState,
    b: GameState,
    p_size: u32,
    dirs: Seq<Seq<Vec2i>>,
) -> bool {
    &&& same_but_world_rng(b, a)
    &&& b.n_slots() == a.n_slots()
    &&& dirs.len() == a.n_slots()
    &&& (forall|i: int|
        0 <= i < a.n_slots() && !(a.is_enemy(i) && a.c(i).nommer->0.size > p_size)
            ==> #[trigger] b.world.slots@[i] == a.world.slots@[i])
    &&& (forall|i: int|
        a.is_enemy(i) && a.c(i).nommer->0.size > p_size ==> {
            let oc = a.c(i);
            let nc = #[trigger] b.c(i);
            &&& nc == (Components { vel: nc.vel, ..oc })
            &&& nc.vel is Some
            &&& -VEL_CAP <= nc.vel->0.x <= VEL_CAP
            &&& -VEL_CAP <= nc.vel->0.y <= VEL_CAP
            &&& dirs[i].len() == a.n_slots()
            &&& nc.vel->0 == sep_accum(a.world.slots@, p_size, i, dirs[i], a.n_slots(), oc.vel->0)
            &&& (forall|k: int|
                0 <= k < a.n_slots() && k != i && a.live(k) && a.c(k).role == Some(Role::Enemy)
                    && sep_overlaps(oc, a.c(k)) ==> sep_dir_ok(oc, a.c(k), #[trigger] dirs[i][k]))
        })
    &&& (forall|i: int| b.live(i) == a.live(i))
}

/// The consumption decisions over the snapshot `p` of the player.
pub open spec fn collect_rel(a: GameState, nommed: Seq<usize>, p_pos: Vec2i, p: Nommer) -> bool {
    &&& (forall|j: int|
        0 <= j < nommed.len() ==> nommed[j] == a.player || (a.is_enemy(#[trigger] nommed[j] as int)
            && player_eats(p, a.c(nommed[j] as int).nommer->0) && nom_overlap(
            p_pos,
            a.c(nommed[j] as int).pos->0,
            p.size,
            a.c(nommed[j] as int).nommer->0.size,
        )))
    &&& (forall|i: int|
        #[trigger] a.is_enemy(i) ==> ((a.is_enemy(i) && player_eats(p, a.c(i).nommer->0)
            && nom_overlap(p_pos, a.c(i).pos->0, p.size, a.c(i).nommer->0.size)) <==> exists|j: int|
            0 <= j < nommed.len() && #[trigger] nommed[j] as int == i))
    &&& ((exists|i: int|
        #[trigger] a.is_enemy(i) && enemy_eats(p, a.c(i).nommer->0) && nom_overlap(
            p_pos,
            a.c(i).pos->0,
            p.size,
            a.c(i).nommer->0.size,
        )) <==> (exists|j: int| 0 <= j < nommed.len() && #[trigger] nommed[j] == a.player))
    &&& (forall|j: int, k: int|
        0 <= j < k < nommed.len() ==> nommed[j] != nommed[k] || nommed[j] == a.player)
}

/// The application of the nom decisions: despawns, growth, shrink, the
/// invulnerability grant and the game-over transition.
pub open spec fn apply_rel(a: GameState, b: GameState, nommed: Seq<usize>) -> bool {
    &&& b.tick == a.tick
    &&& b.player == a.player
    &&& b.powerup_timer == a.powerup_timer
    &&& b.enemy_spawn_timer == a.enemy_spawn_timer
    &&& b.rng == a.rng
    &&& b.n_slots() == a.n_slots()
    &&& (forall|i: int|
        0 <= i < a.n_slots() && i != a.player as int && !(exists|j: int|
            0 <= j < nommed.len() && #[trigger] nommed[j] as int == i)
            ==> #[trigger] b.world.slots@[i] == a.world.slots@[i])
    &&& (forall|i: int|
        a.is_enemy(i) && (exists|j: int| 0 <= j < nommed.len() && #[trigger] nommed[j] as int == i)
            ==> !b.live(i))
    &&& b.live(a.player as int)
    &&& b.c(a.player as int) == (Components {
        nommer: b.c(a.player as int).nommer,
        ..a.c(a.player as int)
    })
    &&& b.p_nommer().powerup_remaining == a.p_nommer().powerup_remaining
    &&& (a.p_nommer().powerup_remaining > 0 ==> b.p_nommer() == a.p_nommer() && b.game_over
        == a.game_over && b.restart_timer == a.restart_timer)
    &&& (!(exists|j: int| 0 <= j < nommed.len() && #[trigger] nommed[j] == a.player) && a.p_nommer().powerup_remaining == 0
        ==> b.p_nommer().size as int == (if a.p_nommer().size + NOM_GROWTH * enemy_entries(
        nommed,
        a.player,
        nommed.len() as int,
    ) <= PLAYER_MAX_SIZE {
        a.p_nommer().size + NOM_GROWTH * enemy_entries(nommed, a.player, nommed.len() as int)
    } else {
        PLAYER_MAX_SIZE as int
    }))
    &&& ((!(exists|j: int| 0 <= j < nommed.len() && #[trigger] nommed[j] == a.player)
        || a.p_nommer().i_frames > 0 || a.p_nommer().powerup_remaining > 0) ==> b.p_nommer().i_frames
        == a.p_nommer().i_frames && b.game_over == a.game_over && b.restart_timer
        == a.restart_timer && b.p_nommer().size >= a.p_nommer().size)
    &&& (nommed.len() == 1 && nommed[0] == a.player && a.p_nommer().i_frames == 0
        && a.p_nommer().powerup_remaining == 0 && a.p_nommer().size >= PLAYER_MIN_SIZE ==> {
        &&& b.p_nommer().size as int == a.p_nommer().size - NOM_GROWTH
        &&& b.p_nommer().i_frames == PLAYER_I_FRAMES
        &&& b.game_over == (a.game_over || a.p_nommer().size - NOM_GROWTH < PLAYER_MIN_SIZE)
        &&& (a.p_nommer().size - NOM_GROWTH < PLAYER_MIN_SIZE ==> b.restart_timer == RESTART_TIME)
        &&& (a.p_nommer().size - NOM_GROWTH >= PLAYER_MIN_SIZE ==> b.restart_timer
            == a.restart_timer)
    })
}

/// The power-up spawn check and its timer's tick.
pub open spec fn pspawn_rel(a: GameState, b: GameState) -> bool {
    &&& b.tick == a.tick
    &&& b.player == a.player
    &&& b.game_over == a.game_over
    &&& b.restart_timer == a.restart_timer
    &&& b.enemy_spawn_timer == a.enemy_spawn_timer
    &&& b.powerup_timer as int == (if a.powerup_timer == 0 {
        POWERUP_TIMER as int
    } else {
        a.powerup_timer as int
    }) - (if a.game_over {
        0int
    } else {
        1int
    })
    &&& (a.powerup_timer == 0 ==> {
        &&& b.n_slots() == a.n_slots() + 1
        &&& (forall|i: int|
            0 <= i < a.n_slots() ==> #[trigger] b.world.slots@[i] == a.world.slots@[i])
        &&& b.is_powerup(a.n_slots())
        &&& in_bounds(b.c(a.n_slots()).pos->0)
        &&& b.c(a.n_slots()).nommer is None
        &&& b.c(a.n_slots()).vel is None
    })
    &&& (a.powerup_timer != 0 ==> b.world.slots@ == a.world.slots@)
}

/// Power-up collection: overlapped power-ups despawn, the duration window
/// is overwritten.
pub open spec fn pcollect_rel(a: GameState, b: GameState) -> bool {
    &&& same_but_world(b, a)
    &&& b.n_slots() == a.n_slots()
    &&& (forall|i: int|
        #[trigger] a.is_powerup(i) ==> (b.live(i) <==> !powerup_overlap(
            a.p_pos(),
            a.c(i).pos->0,
            a.p_nommer().size,
        )))
    &&& (forall|i: int| #[trigger] a.is_powerup(i) && b.live(i) ==> b.c(i) == a.c(i))
    &&& (forall|i: int|
        0 <= i < a.n_slots() && !a.is_powerup(i) && i != a.player as int
            ==> #[trigger] b.world.slots@[i] == a.world.slots@[i])
    &&& b.live(a.player as int)
    &&& b.c(a.player as int) == (Components {
        nommer: b.c(a.player as int).nommer,
        ..a.c(a.player as int)
    })
    &&& b.p_nommer().size == a.p_nommer().size
    &&& b.p_nommer().i_frames == a.p_nommer().i_frames
    &&& b.p_nommer().powerup_remaining == (if exists|i: int|
        #[trigger] a.is_powerup(i) && powerup_overlap(a.p_pos(), a.c(i).pos->0, a.p_nommer().size) {
        POWERUP_DURATION
    } else {
        a.p_nommer().powerup_remaining
    })
}

/// The enemy spawn check: a fresh batch on a fired timer, and the timer's
/// random reset and tick.
pub open spec fn espawn_rel(a: GameState, b: GameState) -> bool {
    &&& b.tick == a.tick
    &&& b.player == a.player
    &&& b.game_over == a.game_over
    &&& b.restart_timer == a.restart_timer
    &&& b.powerup_timer == a.powerup_timer
    &&& (a.enemy_spawn_timer == 0 ==> {
        &&& a.n_slots() + ENEMY_SPAWN_AMOUNT_MIN <= b.n_slots() <= a.n_slots()
            + ENEMY_SPAWN_AMOUNT_MAX
        &&& (forall|i: int|
            0 <= i < a.n_slots() ==> #[trigger] b.world.slots@[i] == a.world.slots@[i])
        &&& (forall|i: int|
            a.n_slots() <= i < b.n_slots() ==> {
                let c = #[trigger] b.c(i);
                &&& b.is_enemy(i)
                &&& c.nommer == Some(
                    Nommer { size: ENEMY_INIT_SIZE, i_frames: 0, powerup_remaining: 0 },
                )
                &&& c.vel == Some(Vec2i { x: 0, y: 0 })
                &&& c.pos is Some
                &&& in_bounds(c.pos->0)
            })
        &&& ENEMY_SPAWN_TIMER_MIN as int - (if a.game_over {
            0int
        } else {
            1int
        }) <= b.enemy_spawn_timer as int <= ENEMY_SPAWN_TIMER_MAX as int - (if a.game_over {
            0int
        } else {
            1int
        })
    })
    &&& (a.enemy_spawn_timer != 0 ==> b.world.slots@ == a.world.slots@ && b.enemy_spawn_timer as int
        == a.enemy_spawn_timer - (if a.game_over {
        0int
    } else {
        1int
    }))
}

/// The intermediate states of one tick, so that a caller can follow the
/// whole pass step by step through the step relations.
pub struct TickTrace {
    /// After the tick counter advance.
    pub start: GameState,
    /// After the game-over safety sweep (the start state when running).
    pub swept: GameState,
    /// After the restart countdown (the start state when running).
    pub entered: GameState,
    /// After the visual backfill.
    pub filled: GameState,
    /// After pointer tracking.
    pub pointed: GameState,
    /// After the periodic enemy growth (unchanged off-cycle).
    pub grown: GameState,
    /// After steering and movement.
    pub moved: GameState,
    /// After the separation pass.
    pub parted: GameState,
    /// The separation pass's push directions.
    pub sep_dirs: Seq<Seq<Vec2i>>,
    /// After the invulnerability countdown (unchanged in game-over).
    pub counted: GameState,
    /// The consumption decisions of this tick.
    pub nommed: Seq<usize>,
    /// After the nom decisions were applied.
    pub applied: GameState,
    /// After the power-up spawn check.
    pub pspawned: GameState,
    /// After the power-up duration countdown (unchanged in game-over).
    pub pticked: GameState,
    /// After power-up collection.
    pub collected: GameState,
}

/// A trace whose every station is `s` (for the restart tick, whose
/// contract does not inspect the trace).
pub open spec fn trivial_trace(s: GameState) -> TickTrace {
    TickTrace {
        start: s,
        swept: s,
        entered: s,
        filled: s,
        pointed: s,
        grown: s,
        moved: s,
        parted: s,
        sep_dirs: Seq::empty(),
        counted: s,
        nommed: Seq::empty(),
        applied: s,
        pspawned: s,
        pticked: s,
        collected: s,
    }
}

} // verus!
