//! The simulated world: towers that fire at the nearest target, targets that
//! drift along one axis, and bullets that fly straight until their lifetime
//! runs out.

use crate::geometry::{
    abs, add_fits, checked_add, checked_sub, dist_sq, distance_squared, fits_i32, is_zero,
    lemma_reach_rounds_down, lemma_reach_zero, norm_sq, reach, reach_component, reach_fits,
    sub_fits, sweep, vadd, vsub, Vec3,
};
use crate::timer::{
    lemma_once_fires_on_reaching, lemma_repeating_fires_every_period,
    lemma_repeating_fires_on_crossing, lemma_ticked_wf, total, Timer, TimerMode,
};
use vstd::arithmetic::div_mod::{lemma_div_by_multiple, lemma_div_denominator};
use vstd::prelude::*;

verus! {

/// Speed of every bullet a tower fires, in millimetres per second.
pub const BULLET_SPEED: u32 = 3000;

/// Lifetime of every bullet a tower fires, in milliseconds.
pub const BULLET_LIFETIME: u64 = 1000500;

/// A shooter: fires a bullet from `position + bullet_offset` each time its
/// repeating timer runs out.
#[derive(Clone, Copy, Debug, PartialEq, Eq, Structural)]
pub struct Tower {
    pub position: Vec3,
    pub shooting_timer: Timer,
    pub bullet_offset: Vec3,
}

/// A one-shot countdown after which its entity leaves the world.
#[derive(Clone, Copy, Debug, PartialEq, Eq, Structural)]
pub struct Lifetime {
    pub timer: Timer,
}

/// Hit points of a target; nothing in the simulation changes them yet.
#[derive(Clone, Copy, Debug, PartialEq, Eq, Structural)]
pub struct Health {
    pub value: i32,
}

/// Something towers aim at; it drifts along the x axis at `speed`
/// millimetres per second. Its position is worked out afresh on every tick
/// from where it started (`origin`) and how long it has drifted since
/// (`drifted`, in milliseconds), so no rounding piles up over ticks.
#[derive(Clone, Copy, Debug, PartialEq, Eq, Structural)]
pub struct Target {
    pub position: Vec3,
    pub speed: i32,
    pub health: Option<Health>,
    pub origin: Vec3,
    pub drifted: u64,
}

/// A projectile flying along `direction` (of any non-zero length) at `speed`
/// millimetres per second; `scene` is the renderable it was spawned with.
/// Its position is worked out afresh on every tick from the start of its
/// current leg (`origin`) and the time flown since (`flown`, in
/// milliseconds).
#[derive(Clone, Copy, Debug, PartialEq, Eq, Structural)]
pub struct Bullet {
    pub id: u64,
    pub position: Vec3,
    pub direction: Vec3,
    pub speed: u32,
    pub lifetime: Lifetime,
    pub scene: u64,
    pub origin: Vec3,
    pub flown: u64,
}

/// What the shooting engine is configured with: the handle of the bullet's
/// renderable, passed on without being read, and the direction towers fire
/// in when there is no target. With `fallback_direction` `None` (the usual
/// setting) a tower without a target holds its fire.
#[derive(Clone, Copy, Debug, PartialEq, Eq, Structural)]
pub struct GameAssets {
    pub bullet_scene: u64,
    pub fallback_direction: Option<Vec3>,
}

/// Every entity of the simulation. Bullets are told apart by `id`; ids are
/// handed out in increasing order from `next_id` and never reused.
#[derive(Debug)]
pub struct World {
    pub towers: Vec<Tower>,
    pub targets: Vec<Target>,
    pub bullets: Vec<Bullet>,
    pub next_id: u64,
    pub assets: GameAssets,
}

/// Index of the target nearest to `from` (the first of equally near ones),
/// or -1 when there is none.
pub open spec fn nearest_in(from: Vec3, ts: Seq<Target>) -> int
    decreases ts.len(),
{
    if ts.len() == 0 {
        -1
    } else {
        let k = nearest_in(from, ts.drop_last());
        if k < 0 || dist_sq(from, ts.last().position) < dist_sq(from, ts[k].position) {
            ts.len() - 1
        } else {
            k
        }
    }
}

/// Where a tower's bullet starts and the direction it takes: toward the
/// nearest target, or along `fallback` where there is no target. None where
/// there is neither, the direction would be zero, or a coordinate would
/// leave the representable range.
pub open spec fn aim(t: Tower, ts: Seq<Target>, fallback: Option<Vec3>) -> Option<(Vec3, Vec3)> {
    if !add_fits(t.position, t.bullet_offset) {
        None
    } else {
        let spawn = vadd(t.position, t.bullet_offset);
        let k = nearest_in(spawn, ts);
        if k < 0 {
            match fallback {
                Some(d) => if is_zero(d) {
                    None
                } else {
                    Some((spawn, d))
                },
                None => None,
            }
        } else {
            let p = ts[k].position;
            if sub_fits(p, spawn) && !is_zero(vsub(p, spawn)) {
                Some((spawn, vsub(p, spawn)))
            } else {
                None
            }
        }
    }
}

/// A bullet as a tower fires it.
pub open spec fn fired_bullet(id: u64, spawn: Vec3, direction: Vec3, scene: u64) -> Bullet {
    Bullet {
        id,
        position: spawn,
        direction,
        speed: BULLET_SPEED,
        origin: spawn,
        flown: 0,
        lifetime: Lifetime {
            timer: Timer { duration: BULLET_LIFETIME, elapsed: 0, mode: TimerMode::Once, finished: false },
        },
        scene,
    }
}

/// The towers after their timers advance by `dt`, in order, each firing at
/// most one bullet onto `bullets` with the next free id; with the ids
/// used up, no more bullets come.
pub open spec fn shoot_all(
    towers: Seq<Tower>,
    targets: Seq<Target>,
    dt: int,
    assets: GameAssets,
    bullets: Seq<Bullet>,
    next_id: u64,
) -> (Seq<Tower>, Seq<Bullet>, u64)
    decreases towers.len(),
{
    if towers.len() == 0 {
        (Seq::empty(), bullets, next_id)
    } else {
        let (ts, bs, id) = shoot_all(towers.drop_last(), targets, dt, assets, bullets, next_id);
        let t = towers.last();
        let t2 = Tower { shooting_timer: t.shooting_timer.ticked(dt), ..t };
        if t.shooting_timer.fires(dt) && id < u64::MAX {
            match aim(t, targets, assets.fallback_direction) {
                Some((s, d)) => (
                    ts.push(t2),
                    bs.push(fired_bullet(id, s, d, assets.bullet_scene)),
                    (id + 1) as u64,
                ),
                None => (ts.push(t2), bs, id),
            }
        } else {
            (ts.push(t2), bs, id)
        }
    }
}

/// The nearest target is one no other target is nearer than, and no target
/// before it in the list is as near; there is one whenever there are
/// targets.
pub proof fn lemma_nearest_is_closest(from: Vec3, ts: Seq<Target>)
    ensures
        ts.len() == 0 <==> nearest_in(from, ts) == -1,
        ts.len() > 0 ==> 0 <= nearest_in(from, ts) < ts.len(),
        forall|j: int|
            0 <= j < ts.len() ==> dist_sq(from, ts[nearest_in(from, ts)].position) <= dist_sq(
                from,
                #[trigger] ts[j].position,
            ),
        forall|j: int|
            0 <= j < nearest_in(from, ts) ==> dist_sq(from, #[trigger] ts[j].position) > dist_sq(
                from,
                ts[nearest_in(from, ts)].position,
            ),
    decreases ts.len(),
{
    if ts.len() > 0 {
        let pre = ts.drop_last();
        lemma_nearest_is_closest(from, pre);
        assert forall|j: int| 0 <= j < pre.len() implies pre[j] == ts[j] by {}
    }
}

/// With no targets in the world and no fallback direction, towers fire
/// nothing, however their timers run: the bullets and the next free id stay
/// as they were.
pub proof fn lemma_no_targets_no_bullets(
    towers: Seq<Tower>,
    dt: int,
    assets: GameAssets,
    bullets: Seq<Bullet>,
    next_id: u64,
)
    requires
        assets.fallback_direction == None::<Vec3>,
    ensures
        shoot_all(towers, Seq::empty(), dt, assets, bullets, next_id).1 == bullets,
        shoot_all(towers, Seq::empty(), dt, assets, bullets, next_id).2 == next_id,
    decreases towers.len(),
{
    if towers.len() > 0 {
        lemma_no_targets_no_bullets(towers.drop_last(), dt, assets, bullets, next_id);
    }
}

/// A single tower's shooting over a run of ticks `ds`: its tower, the
/// bullets, and the next free id after each `shoot_all` in turn.
pub open spec fn shooting_run(
    t: Tower,
    targets: Seq<Target>,
    assets: GameAssets,
    bullets: Seq<Bullet>,
    next_id: u64,
    ds: Seq<u64>,
) -> (Tower, Seq<Bullet>, u64)
    decreases ds.len(),
{
    if ds.len() == 0 {
        (t, bullets, next_id)
    } else {
        let (t1, bs, id) = shooting_run(t, targets, assets, bullets, next_id, ds.drop_last());
        let r = shoot_all(seq![t1], targets, ds.last() as int, assets, bs, id);
        (r.0[0], r.1, r.2)
    }
}

/// A tower that has something to aim at fires one bullet each time its
/// cooldown runs out, so over a run of ticks it fires exactly as often as
/// its timer does (ids permitting); its timer runs as `Timer::run` says.
pub proof fn lemma_tower_fires_with_timer(
    t: Tower,
    targets: Seq<Target>,
    assets: GameAssets,
    bullets: Seq<Bullet>,
    next_id: u64,
    ds: Seq<u64>,
)
    requires
        aim(t, targets, assets.fallback_direction) is Some,
        next_id + ds.len() < u64::MAX,
    ensures
        ({
            let (t2, bs, id) = shooting_run(t, targets, assets, bullets, next_id, ds);
            let n = t.shooting_timer.run(ds).1;
            &&& t2 == Tower { shooting_timer: t.shooting_timer.run(ds).0, ..t }
            &&& bs.len() == bullets.len() + n
            &&& id == next_id + n
            &&& n <= ds.len()
        }),
    decreases ds.len(),
{
    if ds.len() > 0 {
        let pre = ds.drop_last();
        lemma_tower_fires_with_timer(t, targets, assets, bullets, next_id, pre);
        let (t1, bs, id) = shooting_run(t, targets, assets, bullets, next_id, pre);
        assert(seq![t1].drop_last() =~= Seq::<Tower>::empty());
        assert(seq![t1].last() == t1);
        assert(aim(t1, targets, assets.fallback_direction) == aim(t, targets, assets.fallback_direction));
        let dt = ds.last() as int;
        let e = shoot_all(Seq::<Tower>::empty(), targets, dt, assets, bs, id);
        assert(e == (Seq::<Tower>::empty(), bs, id));
        let t1n = Tower { shooting_timer: t1.shooting_timer.ticked(dt), ..t1 };
        let r = shoot_all(seq![t1], targets, dt, assets, bs, id);
        assert(Seq::<Tower>::empty().push(t1n)[0] == t1n);
        assert(r.0[0] == t1n);
        let (u, n0) = t.shooting_timer.run(pre);
        assert(t.shooting_timer.run(ds) == (u.ticked(dt), if u.fires(dt) {
            n0 + 1
        } else {
            n0
        }));
    }
}

/// A tower with something to aim at, whose cooldown period is positive and
/// whose ticks are each at most one period long, fires once for every full
/// period of accumulated time over any run of ticks, whatever their
/// lengths (ids permitting).
pub proof fn lemma_tower_fires_every_period(
    t: Tower,
    targets: Seq<Target>,
    assets: GameAssets,
    bullets: Seq<Bullet>,
    next_id: u64,
    ds: Seq<u64>,
)
    requires
        t.shooting_timer.wf(),
        t.shooting_timer.mode == TimerMode::Repeating,
        t.shooting_timer.duration > 0,
        forall|i: int| 0 <= i < ds.len() ==> ds[i] <= t.shooting_timer.duration,
        aim(t, targets, assets.fallback_direction) is Some,
        next_id + ds.len() < u64::MAX,
    ensures
        shooting_run(t, targets, assets, bullets, next_id, ds).1.len() == bullets.len() + (
        t.shooting_timer.elapsed + total(ds)) / (t.shooting_timer.duration as int),
{
    lemma_tower_fires_with_timer(t, targets, assets, bullets, next_id, ds);
    lemma_repeating_fires_every_period(t.shooting_timer, ds);
}

/// A tower that has something to aim at fires a bullet on a call exactly
/// when the time accumulated over the calls crosses a multiple of its
/// cooldown period, whatever the lengths of the ticks (ids permitting).
pub proof fn lemma_tower_fires_on_crossing(
    t: Tower,
    targets: Seq<Target>,
    assets: GameAssets,
    bullets: Seq<Bullet>,
    next_id: u64,
    ds: Seq<u64>,
)
    requires
        t.shooting_timer.wf(),
        t.shooting_timer.mode == TimerMode::Repeating,
        t.shooting_timer.duration > 0,
        ds.len() > 0,
        aim(t, targets, assets.fallback_direction) is Some,
        next_id + ds.len() < u64::MAX,
    ensures
        ({
            let p = t.shooting_timer.duration as int;
            let e = t.shooting_timer.elapsed as int;
            let before = shooting_run(t, targets, assets, bullets, next_id, ds.drop_last()).1.len();
            let after = shooting_run(t, targets, assets, bullets, next_id, ds).1.len();
            after == before + if (e + total(ds)) / p > (e + total(ds.drop_last())) / p {
                1int
            } else {
                0int
            }
        }),
{
    lemma_tower_fires_with_timer(t, targets, assets, bullets, next_id, ds);
    lemma_tower_fires_with_timer(t, targets, assets, bullets, next_id, ds.drop_last());
    lemma_repeating_fires_on_crossing(t.shooting_timer, ds);
}

pub open spec fn bullet_ids_below(bs: Seq<Bullet>, bound: u64) -> bool {
    forall|i: int| 0 <= i < bs.len() ==> #[trigger] bs[i].id < bound
}

pub open spec fn bullet_ids_unique(bs: Seq<Bullet>) -> bool {
    forall|i: int, j: int| 0 <= i < j < bs.len() ==> #[trigger] bs[i].id != #[trigger] bs[j].id
}

pub open spec fn bullet_timers_wf(bs: Seq<Bullet>) -> bool {
    forall|i: int|
        0 <= i < bs.len() ==> (#[trigger] bs[i]).lifetime.timer.wf() && bs[i].lifetime.timer.mode
            == TimerMode::Once
}

pub open spec fn tower_timers_wf(ts: Seq<Tower>) -> bool {
    forall|i: int| 0 <= i < ts.len() ==> (#[trigger] ts[i]).shooting_timer.wf()
}

/// Index of the target nearest to `from`, the first of equally near ones.
pub fn nearest_target(from: Vec3, targets: &Vec<Target>) -> (r: Option<usize>)
    ensures
        match r {
            None => nearest_in(from, targets@) < 0,
            Some(k) => k as int == nearest_in(from, targets@),
        },
{
    let mut best: Option<usize> = None;
    let mut best_d: u128 = 0;
    let mut i: usize = 0;
    while i < targets.len()
        invariant
            i <= targets.len(),
            match best {
                None => nearest_in(from, targets@.take(i as int)) < 0,
                Some(k) => k as int == nearest_in(from, targets@.take(i as int)),
            },
            nearest_in(from, targets@.take(i as int)) < i,
            i == 0 <==> nearest_in(from, targets@.take(i as int)) < 0,
            i > 0 ==> 0 <= nearest_in(from, targets@.take(i as int)),
            best matches Some(k) ==> best_d == dist_sq(from, targets@[k as int].position),
        decreases targets.len() - i,
    {
        let ghost pre = targets@.take(i as int);
        let ghost cur = targets@.take(i + 1);
        assert(cur.drop_last() =~= pre);
        proof {
            lemma_nearest_is_closest(from, pre);
        }
        let d = distance_squared(from, targets[i].position);
        match best {
            None => {
                best = Some(i);
                best_d = d;
            },
            Some(k) => {
                assert(pre[k as int] == targets@[k as int]);
                if d < best_d {
                    best = Some(i);
                    best_d = d;
                }
            },
        }
        i = i + 1;
    }
    assert(targets@.take(targets.len() as int) =~= targets@);
    best
}

/// Where `tower` would spawn a bullet and in which direction.
pub fn aim_at(tower: &Tower, targets: &Vec<Target>, fallback: Option<Vec3>) -> (r: Option<(Vec3, Vec3)>)
    ensures
        r == aim(*tower, targets@, fallback),
{
    let spawn = match checked_add(tower.position, tower.bullet_offset) {
        Some(s) => s,
        None => {
            return None;
        },
    };
    proof {
        lemma_nearest_is_closest(spawn, targets@);
    }
    match nearest_target(spawn, targets) {
        None => match fallback {
            Some(d) => {
                if d.x == 0 && d.y == 0 && d.z == 0 {
                    None
                } else {
                    Some((spawn, d))
                }
            },
            None => None,
        },
        Some(k) => match checked_sub(targets[k].position, spawn) {
            Some(d) => {
                if d.x == 0 && d.y == 0 && d.z == 0 {
                    None
                } else {
                    Some((spawn, d))
                }
            },
            None => None,
        },
    }
}

/// Distance in millimetres covered in `t` milliseconds at `speed`
/// millimetres per second, rounded toward zero.
pub open spec fn drift(speed: int, t: int) -> int {
    if speed >= 0 {
        (speed * t) / 1000
    } else {
        -(((-speed) * t) / 1000)
    }
}

impl Target {
    /// A target standing at `position`, about to start drifting.
    pub fn new(position: Vec3, speed: i32, health: Option<Health>) -> (r: Target)
        ensures
            r == (Target { position, speed, health, origin: position, drifted: 0 }),
    {
        Target { position, speed, health, origin: position, drifted: 0 }
    }

    /// Whether the target stands where its leg puts it: at its origin's x
    /// plus the drift over the time since.
    pub open spec fn on_leg(self) -> bool {
        self.position.x == self.origin.x + drift(self.speed as int, self.drifted as int)
    }

    /// The target with its leg restarted where it stands, unless it already
    /// stands on its leg (its position may have been set from outside).
    pub open spec fn rebased(self) -> Target {
        if self.on_leg() {
            self
        } else {
            Target { origin: self.position, drifted: 0, ..self }
        }
    }

    /// The target after drifting `dt` milliseconds more: its x is its leg's
    /// origin x plus the drift over the whole time since the leg began. It
    /// stays where it is if that time or position leaves the representable
    /// range.
    pub open spec fn moved(self, dt: int) -> Target {
        let r = self.rebased();
        let t = r.drifted + dt;
        let nx = r.origin.x + drift(r.speed as int, t);
        if t <= u64::MAX && fits_i32(nx) {
            Target { position: Vec3 { x: nx as i32, ..r.position }, drifted: t as u64, ..r }
        } else {
            r
        }
    }

    /// Moves the target along x by its speed times `dt` milliseconds.
    pub fn advance(&mut self, dt: u64)
        ensures
            *final(self) == old(self).moved(dt as int),
            dt == 0 ==> final(self).position == old(self).position,
    {
        proof {
            lemma_target_zero_tick(*old(self));
        }
        let here = drift_from(self.origin.x, self.speed, self.drifted);
        let on = match here {
            Some(x) => x == self.position.x,
            None => false,
        };
        if !on {
            self.origin = self.position;
            self.drifted = 0;
        }
        if dt > u64::MAX - self.drifted {
            return;
        }
        let t: u64 = self.drifted + dt;
        match drift_from(self.origin.x, self.speed, t) {
            Some(x) => {
                self.position.x = x;
                self.drifted = t;
            },
            None => {},
        }
    }
}

/// `x0` plus the drift at `speed` over `t` milliseconds, or `None` where
/// that leaves the range of `i32`.
pub fn drift_from(x0: i32, speed: i32, t: u64) -> (r: Option<i32>)
    ensures
        match r {
            Some(x) => x == x0 + drift(speed as int, t as int),
            None => !fits_i32(x0 + drift(speed as int, t as int)),
        },
{
    let sp: i64 = speed as i64;
    let m: u64 = if sp < 0 {
        (-sp) as u64
    } else {
        sp as u64
    };
    assert(m * t <= 0x8000_0000int * 0xffff_ffff_ffff_ffffint) by (nonlinear_arith)
        requires
            m <= 0x8000_0000int,
            t <= 0xffff_ffff_ffff_ffffint,
    ;
    let q: u128 = ((m as u128) * (t as u128)) / 1000;
    assert(q <= 0x8000_0000int * 0xffff_ffff_ffff_ffffint);
    let step: i128 = if sp < 0 {
        -(q as i128)
    } else {
        q as i128
    };
    let nx: i128 = x0 as i128 + step;
    if i32::MIN as i128 <= nx && nx <= i32::MAX as i128 {
        Some(nx as i32)
    } else {
        None
    }
}

/// A tick of no time leaves a target where it is.
pub proof fn lemma_target_zero_tick(t: Target)
    ensures
        t.moved(0).position == t.position,
{
    assert(drift(t.speed as int, 0) == 0) by (nonlinear_arith);
}

/// A target that drifts for `a` and then `b` milliseconds ends where one
/// that drifts `a + b` milliseconds at once does, wherever both stay in the
/// representable range: how time is cut into ticks does not matter.
pub proof fn lemma_target_split(t: Target, a: int, b: int)
    requires
        a >= 0,
        b >= 0,
        t.moved(a).drifted == t.rebased().drifted + a,
        t.moved(a + b).drifted == t.rebased().drifted + a + b,
    ensures
        t.moved(a).moved(b) == t.moved(a + b),
{
    assert(t.rebased().rebased() == t.rebased()) by {
        assert(drift(t.speed as int, 0) == 0) by (nonlinear_arith);
    }
}

/// A target whose position was set from outside drifts from there: one
/// tick moves it by exactly the drift over that tick.
pub proof fn lemma_target_moves_from_where_it_is(t: Target, dt: int)
    requires
        dt >= 0,
        !t.on_leg(),
        t.moved(dt).drifted == dt,
    ensures
        t.moved(dt).position.x == t.position.x + drift(t.speed as int, dt),
        t.moved(dt).position.y == t.position.y,
        t.moved(dt).position.z == t.position.z,
{
}

impl Bullet {
    /// Where the bullet's current leg puts it after `t` milliseconds: each
    /// coordinate is the origin's plus the distance along its direction,
    /// scaled to unit length, at its speed, rounded toward zero. None where
    /// the direction is zero or the time, a distance or the position leaves
    /// the representable range.
    pub open spec fn leg_pos(self, t: int) -> Option<Vec3> {
        let d = self.direction;
        let d2 = norm_sq(d);
        let sp = self.speed as int;
        let nx = self.origin.x + reach(d.x as int, d2, sp, t);
        let ny = self.origin.y + reach(d.y as int, d2, sp, t);
        let nz = self.origin.z + reach(d.z as int, d2, sp, t);
        if is_zero(d) || t < 0 || t > u64::MAX || !reach_fits(d.x as int, sp, t) || !reach_fits(
            d.y as int,
            sp,
            t,
        ) || !reach_fits(d.z as int, sp, t) || !(fits_i32(nx) && fits_i32(ny) && fits_i32(nz)) {
            None
        } else {
            Some(Vec3 { x: nx as i32, y: ny as i32, z: nz as i32 })
        }
    }

    /// Whether the bullet stands where its leg puts it.
    pub open spec fn on_leg(self) -> bool {
        self.leg_pos(self.flown as int) == Some(self.position)
    }

    /// The bullet with its leg restarted where it stands, unless it already
    /// stands on its leg (its direction or position may have been changed
    /// from outside).
    pub open spec fn rebased(self) -> Bullet {
        if self.on_leg() {
            self
        } else {
            Bullet { origin: self.position, flown: 0, ..self }
        }
    }

    /// The bullet after flying `dt` milliseconds more along its leg; it
    /// stays where it is if the leg does not reach that far in the
    /// representable range.
    pub open spec fn moved(self, dt: int) -> Bullet {
        let r = self.rebased();
        let t = r.flown + dt;
        match r.leg_pos(t) {
            Some(p) => Bullet { position: p, flown: t as u64, ..r },
            None => r,
        }
    }

    /// The bullet after its lifetime advances by `dt` milliseconds.
    pub open spec fn aged(self, dt: int) -> Bullet {
        Bullet { lifetime: Lifetime { timer: self.lifetime.timer.ticked(dt) }, ..self }
    }

    /// Where the bullet's leg puts it after `t` milliseconds.
    pub fn leg_position(&self, t: u64) -> (r: Option<Vec3>)
        ensures
            r == self.leg_pos(t as int),
    {
        let d = self.direction;
        if d.x == 0 && d.y == 0 && d.z == 0 {
            return None;
        }
        let d2 = distance_squared(d, Vec3 { x: 0, y: 0, z: 0 });
        assert(d2 == norm_sq(d));
        assert(d2 > 0) by (nonlinear_arith)
            requires
                d2 == d.x * d.x + d.y * d.y + d.z * d.z,
                !(d.x == 0 && d.y == 0 && d.z == 0),
        ;
        assert(d2 <= 0x3_0000_0000_0000_0000int) by (nonlinear_arith)
            requires
                d2 == d.x * d.x + d.y * d.y + d.z * d.z,
                -0x8000_0000 <= d.x < 0x8000_0000,
                -0x8000_0000 <= d.y < 0x8000_0000,
                -0x8000_0000 <= d.z < 0x8000_0000,
        ;
        let rx = match reach_component(d.x, d2, self.speed, t) {
            Some(q) => q,
            None => {
                return None;
            },
        };
        let ry = match reach_component(d.y, d2, self.speed, t) {
            Some(q) => q,
            None => {
                return None;
            },
        };
        let rz = match reach_component(d.z, d2, self.speed, t) {
            Some(q) => q,
            None => {
                return None;
            },
        };
        let far: i128 = 0x2_0000_0000;
        if rx < -far || rx > far || ry < -far || ry > far || rz < -far || rz > far {
            return None;
        }
        let nx = self.origin.x as i128 + rx;
        let ny = self.origin.y as i128 + ry;
        let nz = self.origin.z as i128 + rz;
        if i32::MIN as i128 <= nx && nx <= i32::MAX as i128 && i32::MIN as i128 <= ny && ny
            <= i32::MAX as i128 && i32::MIN as i128 <= nz && nz <= i32::MAX as i128 {
            Some(Vec3 { x: nx as i32, y: ny as i32, z: nz as i32 })
        } else {
            None
        }
    }

    /// Moves the bullet along its direction for `dt` milliseconds.
    pub fn advance(&mut self, dt: u64)
        ensures
            *final(self) == old(self).moved(dt as int),
            dt == 0 ==> final(self).position == old(self).position,
    {
        proof {
            lemma_bullet_zero_tick(*old(self));
        }
        let on = match self.leg_position(self.flown) {
            Some(p) => p == self.position,
            None => false,
        };
        if !on {
            self.origin = self.position;
            self.flown = 0;
        }
        if dt > u64::MAX - self.flown {
            return;
        }
        let t: u64 = self.flown + dt;
        match self.leg_position(t) {
            Some(p) => {
                self.position = p;
                self.flown = t;
            },
            None => {},
        }
    }

    /// Turns the bullet onto a new direction: a new leg starts where it is.
    pub fn set_direction(&mut self, direction: Vec3)
        ensures
            *final(self) == (Bullet { direction, origin: old(self).position, flown: 0, ..*old(self) }),
    {
        self.direction = direction;
        self.origin = self.position;
        self.flown = 0;
    }
}

/// A leg puts a bullet with a non-zero direction at its origin at time 0.
pub proof fn lemma_leg_start(b: Bullet)
    requires
        !is_zero(b.direction),
    ensures
        b.leg_pos(0) == Some(b.origin),
{
    let d = b.direction;
    let d2 = norm_sq(d);
    assert(d2 > 0) by (nonlinear_arith)
        requires
            d2 == d.x * d.x + d.y * d.y + d.z * d.z,
            !(d.x == 0 && d.y == 0 && d.z == 0),
    ;
    lemma_reach_zero(d.x as int, d2, b.speed as int);
    lemma_reach_zero(d.y as int, d2, b.speed as int);
    lemma_reach_zero(d.z as int, d2, b.speed as int);
}

/// A tick of no time leaves a bullet where it is.
pub proof fn lemma_bullet_zero_tick(b: Bullet)
    ensures
        b.moved(0).position == b.position,
{
    if !b.on_leg() && !is_zero(b.direction) {
        lemma_leg_start(b.rebased());
    }
}

/// In a tick a bullet moves along its leg: its new position is its leg's
/// origin plus, along each axis, the direction scaled to unit length, times
/// its speed, times the time flown since the leg began, rounded toward zero
/// to the millimetre. That is, the offset `q` has the sign of the
/// direction's component `c`, and
/// `q^2 * 10^6 * |d|^2 <= (c * speed * t)^2 < (|q| + 1)^2 * 10^6 * |d|^2`.
/// A bullet that was not on its leg (its direction or position changed from
/// outside) starts a new leg where it stands, so it moves by exactly that
/// amount over `dt` from there.
pub proof fn lemma_bullet_travel(b: Bullet, dt: int)
    requires
        dt >= 0,
        b.rebased().leg_pos(b.rebased().flown + dt) is Some,
    ensures
        ({
            let r = b.rebased();
            let m = b.moved(dt);
            let d = b.direction;
            let d2 = norm_sq(d);
            let t = m.flown as int;
            let s = b.speed as int;
            &&& !b.on_leg() ==> r.origin == b.position && t == dt
            &&& m.position.x - r.origin.x == reach(d.x as int, d2, s, t)
            &&& m.position.y - r.origin.y == reach(d.y as int, d2, s, t)
            &&& m.position.z - r.origin.z == reach(d.z as int, d2, s, t)
            &&& d2 > 0
            &&& forall|c: int|
                #![trigger reach(c, d2, s, t)]
                (c == d.x || c == d.y || c == d.z) ==> {
                    let q = reach(c, d2, s, t);
                    let x = c * s * t;
                    &&& (c >= 0 ==> q >= 0) && (c < 0 ==> q <= 0)
                    &&& q * q * (1000000 * d2) <= x * x
                    &&& x * x < (abs(q) + 1) * (abs(q) + 1) * (1000000 * d2)
                }
        }),
{
    let r = b.rebased();
    let d = b.direction;
    let d2 = norm_sq(d);
    let t = r.flown + dt;
    assert(d2 > 0) by (nonlinear_arith)
        requires
            d2 == d.x * d.x + d.y * d.y + d.z * d.z,
            !(d.x == 0 && d.y == 0 && d.z == 0),
    ;
    let s = b.speed as int;
    assert forall|c: int|
        #![trigger reach(c, d2, s, t)]
        (c == d.x || c == d.y || c == d.z) implies {
            let q = reach(c, d2, s, t);
            let x = c * s * t;
            &&& (c >= 0 ==> q >= 0) && (c < 0 ==> q <= 0)
            &&& q * q * (1000000 * d2) <= x * x
            &&& x * x < (abs(q) + 1) * (abs(q) + 1) * (1000000 * d2)
        } by {
        lemma_reach_rounds_down(c, d2, s, t);
        let x = c * s * t;
        let y = sweep(c, s, t);
        let q = reach(c, d2, s, t);
        let mag = crate::geometry::reach_mag(c, d2, s, t);
        assert(x * x == y * y) by (nonlinear_arith)
            requires
                y == abs(c) * s * t,
                x == c * s * t,
        ;
        assert(abs(q) == mag);
        assert(q * q == mag * mag) by (nonlinear_arith)
            requires
                q == mag || q == -mag,
        ;
    }
}

/// A bullet that flies for `a` and then `b` milliseconds ends where one
/// that flies `a + b` milliseconds at once does, wherever both stay in the
/// representable range: how time is cut into ticks does not matter.
pub proof fn lemma_bullet_split(bl: Bullet, a: int, b: int)
    requires
        a >= 0,
        b >= 0,
        bl.rebased().leg_pos(bl.rebased().flown + a) is Some,
        bl.rebased().leg_pos(bl.rebased().flown + a + b) is Some,
    ensures
        bl.moved(a).moved(b) == bl.moved(a + b),
{
    let m = bl.moved(a);
    assert(m.on_leg());
    assert(m.rebased() == m);
}

/// Two bullets at the same place and speed, each at the start of a leg (as
/// after being fired or turned), whose directions differ only in length
/// (one is the other times a positive whole number), land on the same
/// point after a tick, wherever both steps stay in the representable range.
pub proof fn lemma_bullet_scale(b1: Bullet, b2: Bullet, k: int, dt: int)
    requires
        k > 0,
        dt >= 0,
        !is_zero(b1.direction),
        b1.origin == b1.position && b1.flown == 0,
        b2.origin == b2.position && b2.flown == 0,
        b2.position == b1.position,
        b2.speed == b1.speed,
        b2.direction.x == b1.direction.x * k,
        b2.direction.y == b1.direction.y * k,
        b2.direction.z == b1.direction.z * k,
        b1.leg_pos(dt) is Some,
        b2.leg_pos(dt) is Some,
    ensures
        b1.moved(dt).position == b2.moved(dt).position,
{
    let d = b1.direction;
    let e = b2.direction;
    let s = b1.speed as int;
    let d2 = norm_sq(d);
    assert(d2 > 0) by (nonlinear_arith)
        requires
            d2 == d.x * d.x + d.y * d.y + d.z * d.z,
            !(d.x == 0 && d.y == 0 && d.z == 0),
    ;
    lemma_leg_start(b1);
    assert(!is_zero(e)) by (nonlinear_arith)
        requires
            e.x == d.x * k,
            e.y == d.y * k,
            e.z == d.z * k,
            k > 0,
            !(d.x == 0 && d.y == 0 && d.z == 0),
    ;
    lemma_leg_start(b2);
    assert(b1.rebased() == b1);
    assert(b2.rebased() == b2);
    let (x1, y1, z1) = (d.x as int, d.y as int, d.z as int);
    let (x2, y2, z2) = (e.x as int, e.y as int, e.z as int);
    let kk = k * k;
    assert(x2 * x2 == kk * (x1 * x1)) by (nonlinear_arith)
        requires
            x2 == x1 * k,
            kk == k * k,
    ;
    assert(y2 * y2 == kk * (y1 * y1)) by (nonlinear_arith)
        requires
            y2 == y1 * k,
            kk == k * k,
    ;
    assert(z2 * z2 == kk * (z1 * z1)) by (nonlinear_arith)
        requires
            z2 == z1 * k,
            kk == k * k,
    ;
    vstd::arithmetic::mul::lemma_mul_is_distributive_add(kk, x1 * x1 + y1 * y1, z1 * z1);
    vstd::arithmetic::mul::lemma_mul_is_distributive_add(kk, x1 * x1, y1 * y1);
    assert(norm_sq(e) == kk * d2);
    assert forall|c: int|
        #![trigger reach(c, d2, s, dt)]
        reach(c, d2, s, dt) == reach(c * k, norm_sq(e), s, dt) by {
        lemma_reach_scale(c, d2, s, dt, k);
    }
    assert(reach(x1, d2, s, dt) == reach(x2, norm_sq(e), s, dt));
    assert(reach(y1, d2, s, dt) == reach(y2, norm_sq(e), s, dt));
    assert(reach(z1, d2, s, dt) == reach(z2, norm_sq(e), s, dt));
}

/// Scaling a component and the squared length by `k` and `k^2` leaves the
/// distance covered unchanged.
pub proof fn lemma_reach_scale(c: int, d2: int, s: int, t: int, k: int)
    requires
        k > 0,
        d2 > 0,
    ensures
        reach(c, d2, s, t) == reach(c * k, k * k * d2, s, t),
{
    let x = sweep(c, s, t);
    let y = sweep(c * k, s, t);
    let kk = k * k;
    let n = x * x;
    let m = 1000000 * d2;
    assert(y * y == n * kk) by (nonlinear_arith)
        requires
            x == abs(c) * s * t,
            y == abs(c * k) * s * t,
            n == x * x,
            kk == k * k,
            k > 0,
    ;
    assert(1000000 * (kk * d2) == kk * m) by (nonlinear_arith)
        requires
            m == 1000000 * d2,
    ;
    assert(n >= 0 && kk > 0) by (nonlinear_arith)
        requires
            n == x * x,
            kk == k * k,
            k > 0,
    ;
    lemma_div_by_multiple(n, kk);
    lemma_div_denominator(n * kk, kk, m);
    assert((c * k >= 0) == (c >= 0)) by (nonlinear_arith)
        requires
            k > 0,
    ;
}

/// The bullets that outlive a tick of `dt` milliseconds, in order, with
/// their lifetimes advanced; those whose lifetime runs out are gone.
pub open spec fn reap(bs: Seq<Bullet>, dt: int) -> Seq<Bullet>
    decreases bs.len(),
{
    if bs.len() == 0 {
        bs
    } else {
        let rest = reap(bs.drop_last(), dt);
        if bs.last().lifetime.timer.fires(dt) {
            rest
        } else {
            rest.push(bs.last().aged(dt))
        }
    }
}

/// Every bullet left after reaping is an aged bullet whose lifetime did not
/// run out on this tick.
pub proof fn lemma_reap_keeps_survivors(bs: Seq<Bullet>, dt: int)
    ensures
        forall|j: int|
            0 <= j < reap(bs, dt).len() ==> exists|i: int|
                0 <= i < bs.len() && !bs[i].lifetime.timer.fires(dt) && #[trigger] reap(
                    bs,
                    dt,
                )[j] == bs[i].aged(dt),
    decreases bs.len(),
{
    if bs.len() > 0 {
        let pre = bs.drop_last();
        lemma_reap_keeps_survivors(pre, dt);
        let r = reap(bs, dt);
        let rp = reap(pre, dt);
        assert forall|j: int| 0 <= j < r.len() implies exists|i: int|
            0 <= i < bs.len() && !bs[i].lifetime.timer.fires(dt) && #[trigger] r[j] == bs[i].aged(
                dt,
            ) by {
            if j < rp.len() {
                assert(r[j] == rp[j]);
                let i = choose|i: int|
                    0 <= i < pre.len() && !pre[i].lifetime.timer.fires(dt) && rp[j] == pre[i].aged(
                        dt,
                    );
                assert(pre[i] == bs[i]);
            } else {
                assert(r[j] == bs[bs.len() - 1].aged(dt));
            }
        }
    }
}

/// A bullet whose lifetime runs out on a tick (it had not yet run its whole
/// duration, and this tick takes it there) is gone afterwards: no bullet
/// left carries its id, so looking it up finds nothing, now and, as ids are
/// never reused, on every later tick.
pub proof fn lemma_expired_bullet_gone(bs: Seq<Bullet>, dt: int, i: int)
    requires
        bullet_ids_unique(bs),
        bullet_timers_wf(bs),
        0 <= i < bs.len(),
        bs[i].lifetime.timer.elapsed < bs[i].lifetime.timer.duration,
        bs[i].lifetime.timer.elapsed + dt >= bs[i].lifetime.timer.duration,
    ensures
        forall|j: int| 0 <= j < reap(bs, dt).len() ==> (#[trigger] reap(bs, dt)[j]).id != bs[i].id,
{
    lemma_once_fires_on_reaching(bs[i].lifetime.timer, dt);
    lemma_reap_keeps_survivors(bs, dt);
    assert forall|j: int| 0 <= j < reap(bs, dt).len() implies (#[trigger] reap(bs, dt)[j]).id
        != bs[i].id by {
        let k = choose|k: int|
            0 <= k < bs.len() && !bs[k].lifetime.timer.fires(dt) && reap(bs, dt)[j]
                == bs[k].aged(dt);
        assert(k != i);
        if k < i {
            assert(bs[k].id != bs[i].id);
        } else {
            assert(bs[i].id != bs[k].id);
        }
    }
}

/// Reaping keeps the bullets' lifetimes well formed, and their ids distinct
/// and below any bound they were below.
pub proof fn lemma_reap_wf(bs: Seq<Bullet>, dt: int, bound: u64)
    requires
        dt >= 0,
        bullet_timers_wf(bs),
        bullet_ids_below(bs, bound),
        bullet_ids_unique(bs),
    ensures
        bullet_timers_wf(reap(bs, dt)),
        bullet_ids_below(reap(bs, dt), bound),
        bullet_ids_unique(reap(bs, dt)),
    decreases bs.len(),
{
    if bs.len() > 0 {
        let pre = bs.drop_last();
        assert forall|i: int| 0 <= i < pre.len() implies pre[i] == bs[i] by {}
        lemma_reap_wf(pre, dt, bound);
        let rp = reap(pre, dt);
        if !bs.last().lifetime.timer.fires(dt) {
            let r = reap(bs, dt);
            let last = bs.len() - 1;
            lemma_reap_keeps_survivors(pre, dt);
            assert forall|j: int| 0 <= j < rp.len() implies rp[j].id != bs[last].id by {
                let k = choose|k: int|
                    0 <= k < pre.len() && !pre[k].lifetime.timer.fires(dt) && #[trigger] rp[j]
                        == pre[k].aged(dt);
                assert(bs[k].id != bs[last].id);
            }
            assert forall|j1: int, j2: int| 0 <= j1 < j2 < r.len() implies #[trigger] r[j1].id
                != #[trigger] r[j2].id by {
                if j2 < rp.len() {
                    assert(r[j1] == rp[j1] && r[j2] == rp[j2]);
                } else {
                    assert(r[j1] == rp[j1]);
                }
            }
            assert forall|j: int| 0 <= j < r.len() implies (#[trigger] r[j]).lifetime.timer.wf() by {
                lemma_ticked_wf(bs[last].lifetime.timer, dt);
                if j < rp.len() {
                    assert(r[j] == rp[j]);
                }
            }
            assert forall|j: int| 0 <= j < r.len() implies #[trigger] r[j].id < bound by {
                if j < rp.len() {
                    assert(r[j] == rp[j]);
                }
            }
        }
    }
}

/// Every bullet whose lifetime does not run out on a tick is still there
/// afterwards, aged by the tick.
pub proof fn lemma_reap_keeps_unexpired(bs: Seq<Bullet>, dt: int, i: int)
    requires
        0 <= i < bs.len(),
        !bs[i].lifetime.timer.fires(dt),
    ensures
        exists|j: int| 0 <= j < reap(bs, dt).len() && #[trigger] reap(bs, dt)[j] == bs[i].aged(dt),
    decreases bs.len(),
{
    let pre = bs.drop_last();
    if i == bs.len() - 1 {
        let r = reap(bs, dt);
        assert(r[r.len() - 1] == bs[i].aged(dt));
    } else {
        assert(pre[i] == bs[i]);
        lemma_reap_keeps_unexpired(pre, dt, i);
        let j = choose|j: int| 0 <= j < reap(pre, dt).len() && #[trigger] reap(pre, dt)[j] == pre[i].aged(dt);
        assert(reap(bs, dt)[j] == reap(pre, dt)[j]);
    }
}

/// The bullets after a run of `bullet_despawn` calls, one for each tick of
/// `ds`.
pub open spec fn despawn_run(bs: Seq<Bullet>, ds: Seq<u64>) -> Seq<Bullet>
    decreases ds.len(),
{
    if ds.len() == 0 {
        bs
    } else {
        reap(despawn_run(bs, ds.drop_last()), ds.last() as int)
    }
}

/// Over any run of `bullet_despawn` calls a bullet whose lifetime has not
/// run out stays in the world, one bullet with its id, exactly as long as
/// its accumulated time is below its lifetime; from the call that takes it
/// there on, no bullet with its id is left, however long that last tick.
pub proof fn lemma_bullet_lives_its_lifetime(bs: Seq<Bullet>, bound: u64, i: int, ds: Seq<u64>)
    requires
        bullet_timers_wf(bs),
        bullet_ids_below(bs, bound),
        bullet_ids_unique(bs),
        0 <= i < bs.len(),
        bs[i].lifetime.timer.elapsed < bs[i].lifetime.timer.duration,
    ensures
        bullet_timers_wf(despawn_run(bs, ds)),
        bullet_ids_below(despawn_run(bs, ds), bound),
        bullet_ids_unique(despawn_run(bs, ds)),
        bs[i].lifetime.timer.elapsed + total(ds) < bs[i].lifetime.timer.duration ==> exists|j: int|
            0 <= j < despawn_run(bs, ds).len() && (#[trigger] despawn_run(bs, ds)[j]).id
                == bs[i].id && despawn_run(bs, ds)[j].lifetime.timer.elapsed
                == bs[i].lifetime.timer.elapsed + total(ds)
                && despawn_run(bs, ds)[j].lifetime.timer.duration == bs[i].lifetime.timer.duration,
        bs[i].lifetime.timer.elapsed + total(ds) >= bs[i].lifetime.timer.duration ==> forall|j: int|
            0 <= j < despawn_run(bs, ds).len() ==> (#[trigger] despawn_run(bs, ds)[j]).id
                != bs[i].id,
    decreases ds.len(),
{
    let b = bs[i];
    let l = b.lifetime.timer.duration;
    if ds.len() == 0 {
        assert(despawn_run(bs, ds)[i] == b);
        assert(total(ds) == 0);
    } else {
        let pre = ds.drop_last();
        let dt = ds.last() as int;
        lemma_bullet_lives_its_lifetime(bs, bound, i, pre);
        let r = despawn_run(bs, pre);
        lemma_reap_wf(r, dt, bound);
        assert(total(ds) == total(pre) + dt);
        if b.lifetime.timer.elapsed + total(pre) < l {
            let j = choose|j: int|
                0 <= j < r.len() && (#[trigger] r[j]).id == b.id && r[j].lifetime.timer.elapsed
                    == b.lifetime.timer.elapsed + total(pre) && r[j].lifetime.timer.duration == l;
            let u = r[j].lifetime.timer;
            assert(u.wf() && u.mode == TimerMode::Once);
            if b.lifetime.timer.elapsed + total(ds) < l {
                assert(!u.fires(dt));
                lemma_reap_keeps_unexpired(r, dt, j);
                let k = choose|k: int| 0 <= k < reap(r, dt).len() && #[trigger] reap(r, dt)[k] == r[j].aged(dt);
                assert(despawn_run(bs, ds)[k].id == b.id);
            } else {
                lemma_expired_bullet_gone(r, dt, j);
            }
        } else {
            lemma_reap_keeps_survivors(r, dt);
            assert forall|j: int| 0 <= j < despawn_run(bs, ds).len() implies (#[trigger] despawn_run(
                bs,
                ds,
            )[j]).id != b.id by {
                let k = choose|k: int|
                    0 <= k < r.len() && !r[k].lifetime.timer.fires(dt) && #[trigger] reap(r, dt)[j]
                        == r[k].aged(dt);
                assert(r[k].id != b.id);
            }
        }
    }
}

impl World {
    /// Towers keep well-formed timers, bullets keep well-formed lifetimes,
    /// and bullet ids are distinct and below `next_id`.
    pub open spec fn wf(&self) -> bool {
        &&& tower_timers_wf(self.towers@)
        &&& bullet_timers_wf(self.bullets@)
        &&& bullet_ids_below(self.bullets@, self.next_id)
        &&& bullet_ids_unique(self.bullets@)
    }

    /// Advances every tower's cooldown by `dt` milliseconds; each tower whose
    /// cooldown runs out fires one bullet at the nearest target.
    pub fn tower_shooting(&mut self, dt: u64)
        requires
            old(self).wf(),
        ensures
            (final(self).towers@, final(self).bullets@, final(self).next_id) == shoot_all(
                old(self).towers@,
                old(self).targets@,
                dt as int,
                old(self).assets,
                old(self).bullets@,
                old(self).next_id,
            ),
            final(self).targets@ == old(self).targets@,
            final(self).assets == old(self).assets,
            final(self).wf(),
    {
        let ghost old_towers = self.towers@;
        let scene = self.assets.bullet_scene;
        let fallback = self.assets.fallback_direction;
        let mut towers: Vec<Tower> = Vec::new();
        let mut i: usize = 0;
        while i < self.towers.len()
            invariant
                i <= self.towers.len(),
                self.towers@ == old_towers,
                self.targets@ == old(self).targets@,
                self.assets == old(self).assets,
                scene == self.assets.bullet_scene,
                fallback == self.assets.fallback_direction,
                tower_timers_wf(old_towers),
                (towers@, self.bullets@, self.next_id) == shoot_all(
                    old_towers.take(i as int),
                    self.targets@,
                    dt as int,
                    self.assets,
                    old(self).bullets@,
                    old(self).next_id,
                ),
                tower_timers_wf(towers@),
                bullet_timers_wf(self.bullets@),
                bullet_ids_below(self.bullets@, self.next_id),
                bullet_ids_unique(self.bullets@),
            decreases old_towers.len() - i,
        {
            assert(old_towers.take(i + 1).drop_last() =~= old_towers.take(i as int));
            let mut tower = self.towers[i];
            let fired = tower.shooting_timer.tick(dt);
            if fired && self.next_id < u64::MAX {
                match aim_at(&self.towers[i], &self.targets, fallback) {
                    Some((spawn, direction)) => {
                        let b = Bullet {
                            id: self.next_id,
                            position: spawn,
                            direction,
                            speed: BULLET_SPEED,
                            lifetime: Lifetime { timer: Timer::new(BULLET_LIFETIME, TimerMode::Once) },
                            scene,
                            origin: spawn,
                            flown: 0,
                        };
                        self.bullets.push(b);
                        self.next_id = self.next_id + 1;
                    },
                    None => {},
                }
            }
            towers.push(tower);
            i = i + 1;
        }
        assert(old_towers.take(old_towers.len() as int) =~= old_towers);
        self.towers = towers;
    }

    /// An empty world that spawns bullets with the given assets.
    pub fn new(assets: GameAssets) -> (r: World)
        ensures
            r.towers@.len() == 0,
            r.targets@.len() == 0,
            r.bullets@.len() == 0,
            r.next_id == 0,
            r.assets == assets,
            r.wf(),
    {
        World { towers: Vec::new(), targets: Vec::new(), bullets: Vec::new(), next_id: 0, assets }
    }

    /// Adds a tower at `position` that fires every `period` milliseconds from
    /// `position + bullet_offset`.
    pub fn add_tower(&mut self, position: Vec3, bullet_offset: Vec3, period: u64)
        requires
            old(self).wf(),
        ensures
            final(self).towers@ == old(self).towers@.push(
                Tower {
                    position,
                    shooting_timer: Timer {
                        duration: period,
                        elapsed: 0,
                        mode: TimerMode::Repeating,
                        finished: false,
                    },
                    bullet_offset,
                },
            ),
            final(self).targets@ == old(self).targets@,
            final(self).bullets@ == old(self).bullets@,
            final(self).next_id == old(self).next_id,
            final(self).assets == old(self).assets,
            final(self).wf(),
    {
        let t = Tower {
            position,
            shooting_timer: Timer::new(period, TimerMode::Repeating),
            bullet_offset,
        };
        self.towers.push(t);
    }

    /// Adds a target at `position` drifting along x at `speed` millimetres
    /// per second.
    pub fn add_target(&mut self, position: Vec3, speed: i32, health: Option<Health>)
        requires
            old(self).wf(),
        ensures
            final(self).targets@ == old(self).targets@.push(
                Target { position, speed, health, origin: position, drifted: 0 },
            ),
            final(self).towers@ == old(self).towers@,
            final(self).bullets@ == old(self).bullets@,
            final(self).next_id == old(self).next_id,
            final(self).assets == old(self).assets,
            final(self).wf(),
    {
        self.targets.push(Target::new(position, speed, health));
    }

    /// Adds a bullet and returns its id; `None`, with nothing added, once
    /// every id has been handed out.
    pub fn spawn_bullet(
        &mut self,
        position: Vec3,
        direction: Vec3,
        speed: u32,
        lifetime: u64,
    ) -> (r: Option<u64>)
        requires
            old(self).wf(),
        ensures
            old(self).next_id < u64::MAX ==> {
                &&& r == Some(old(self).next_id)
                &&& final(self).bullets@ == old(self).bullets@.push(
                    Bullet {
                        id: old(self).next_id,
                        position,
                        direction,
                        speed,
                        lifetime: Lifetime {
                            timer: Timer {
                                duration: lifetime,
                                elapsed: 0,
                                mode: TimerMode::Once,
                                finished: false,
                            },
                        },
                        scene: old(self).assets.bullet_scene,
                        origin: position,
                        flown: 0,
                    },
                )
                &&& final(self).next_id == old(self).next_id + 1
            },
            old(self).next_id == u64::MAX ==> r == None::<u64> && final(self).bullets@ == old(
                self,
            ).bullets@ && final(self).next_id == old(self).next_id,
            final(self).towers@ == old(self).towers@,
            final(self).targets@ == old(self).targets@,
            final(self).assets == old(self).assets,
            final(self).wf(),
    {
        if self.next_id == u64::MAX {
            return None;
        }
        let id = self.next_id;
        let b = Bullet {
            id,
            position,
            direction,
            speed,
            lifetime: Lifetime { timer: Timer::new(lifetime, TimerMode::Once) },
            scene: self.assets.bullet_scene,
            origin: position,
            flown: 0,
        };
        self.bullets.push(b);
        self.next_id = id + 1;
        Some(id)
    }

    /// The bullet with id `id`, if it is still in the world.
    pub fn find_bullet(&self, id: u64) -> (r: Option<Bullet>)
        ensures
            match r {
                Some(b) => b.id == id && self.bullets@.contains(b),
                None => forall|i: int| 0 <= i < self.bullets@.len() ==> (#[trigger] self.bullets@[i]).id != id,
            },
    {
        let mut i: usize = 0;
        while i < self.bullets.len()
            invariant
                i <= self.bullets.len(),
                forall|j: int| 0 <= j < i ==> (#[trigger] self.bullets@[j]).id != id,
            decreases self.bullets.len() - i,
        {
            if self.bullets[i].id == id {
                assert(self.bullets@[i as int] == self.bullets[i as int]);
                return Some(self.bullets[i]);
            }
            i = i + 1;
        }
        None
    }

    /// Moves every target along x by its speed times `dt` milliseconds.
    pub fn move_targets(&mut self, dt: u64)
        requires
            old(self).wf(),
        ensures
            final(self).targets@ == old(self).targets@.map_values(|t: Target| t.moved(dt as int)),
            dt == 0 ==> forall|i: int|
                0 <= i < final(self).targets@.len() ==> (#[trigger] final(self).targets@[i]).position
                    == old(self).targets@[i].position,
            final(self).towers@ == old(self).towers@,
            final(self).bullets@ == old(self).bullets@,
            final(self).next_id == old(self).next_id,
            final(self).assets == old(self).assets,
            final(self).wf(),
    {
        let mut moved: Vec<Target> = Vec::new();
        let mut i: usize = 0;
        while i < self.targets.len()
            invariant
                i <= self.targets.len(),
                self.targets@ == old(self).targets@,
                moved@ == old(self).targets@.take(i as int).map_values(
                    |t: Target| t.moved(dt as int),
                ),
            decreases self.targets.len() - i,
        {
            let mut t = self.targets[i];
            t.advance(dt);
            moved.push(t);
            assert(old(self).targets@.take(i + 1).map_values(|t: Target| t.moved(dt as int))
                =~= moved@);
            i = i + 1;
        }
        assert(old(self).targets@.take(i as int) =~= old(self).targets@);
        assert forall|j: int| 0 <= j < moved@.len() implies (#[trigger] moved@[j]).position
            == old(self).targets@[j].position || dt != 0 by {
            lemma_target_zero_tick(old(self).targets@[j]);
        }
        self.targets = moved;
    }

    /// Moves every bullet along its direction for `dt` milliseconds.
    pub fn move_bullets(&mut self, dt: u64)
        requires
            old(self).wf(),
        ensures
            final(self).bullets@ == old(self).bullets@.map_values(|b: Bullet| b.moved(dt as int)),
            dt == 0 ==> forall|i: int|
                0 <= i < final(self).bullets@.len() ==> (#[trigger] final(self).bullets@[i]).position
                    == old(self).bullets@[i].position,
            final(self).towers@ == old(self).towers@,
            final(self).targets@ == old(self).targets@,
            final(self).next_id == old(self).next_id,
            final(self).assets == old(self).assets,
            final(self).wf(),
    {
        let mut moved: Vec<Bullet> = Vec::new();
        let mut i: usize = 0;
        while i < self.bullets.len()
            invariant
                i <= self.bullets.len(),
                self.bullets@ == old(self).bullets@,
                moved@ == old(self).bullets@.take(i as int).map_values(
                    |b: Bullet| b.moved(dt as int),
                ),
            decreases self.bullets.len() - i,
        {
            let mut b = self.bullets[i];
            b.advance(dt);
            moved.push(b);
            assert(old(self).bullets@.take(i + 1).map_values(|b: Bullet| b.moved(dt as int))
                =~= moved@);
            i = i + 1;
        }
        assert(old(self).bullets@.take(i as int) =~= old(self).bullets@);
        assert forall|j: int| 0 <= j < moved@.len() implies (#[trigger] moved@[j]).position
            == old(self).bullets@[j].position || dt != 0 by {
            lemma_bullet_zero_tick(old(self).bullets@[j]);
        }
        self.bullets = moved;
    }

    /// Advances every bullet's lifetime by `dt` milliseconds and removes
    /// those whose lifetime runs out.
    pub fn bullet_despawn(&mut self, dt: u64)
        requires
            old(self).wf(),
        ensures
            final(self).bullets@ == reap(old(self).bullets@, dt as int),
            final(self).towers@ == old(self).towers@,
            final(self).targets@ == old(self).targets@,
            final(self).next_id == old(self).next_id,
            final(self).assets == old(self).assets,
            final(self).wf(),
    {
        let ghost bs = self.bullets@;
        let mut kept: Vec<Bullet> = Vec::new();
        let mut i: usize = 0;
        while i < self.bullets.len()
            invariant
                i <= self.bullets.len(),
                self.bullets@ == bs,
                bs == old(self).bullets@,
                bullet_timers_wf(bs),
                kept@ == reap(bs.take(i as int), dt as int),
            decreases self.bullets.len() - i,
        {
            assert(bs.take(i + 1).drop_last() =~= bs.take(i as int));
            let mut b = self.bullets[i];
            let expired = b.lifetime.timer.tick(dt);
            if !expired {
                kept.push(b);
            }
            i = i + 1;
        }
        assert(bs.take(i as int) =~= bs);
        proof {
            lemma_reap_wf(bs, dt as int, self.next_id);
        }
        self.bullets = kept;
    }

    /// One tick of `dt` milliseconds: towers shoot, targets and bullets
    /// move (bullets fired on this tick included), and expired bullets are
    /// removed.
    pub fn tick(&mut self, dt: u64)
        requires
            old(self).wf(),
        ensures
            ({
                let (towers, fired, next_id) = shoot_all(
                    old(self).towers@,
                    old(self).targets@,
                    dt as int,
                    old(self).assets,
                    old(self).bullets@,
                    old(self).next_id,
                );
                &&& final(self).towers@ == towers
                &&& final(self).targets@ == old(self).targets@.map_values(
                    |t: Target| t.moved(dt as int),
                )
                &&& final(self).bullets@ == reap(
                    fired.map_values(|b: Bullet| b.moved(dt as int)),
                    dt as int,
                )
                &&& final(self).next_id == next_id
            }),
            final(self).assets == old(self).assets,
            final(self).wf(),
    {
        self.tower_shooting(dt);
        self.move_targets(dt);
        self.move_bullets(dt);
        self.bullet_despawn(dt);
    }

}

} // verus!
