//! The rain source: a bounded set of falling droplets. Spawning is held
//! back once the droplet cap or the water's depth ceiling is reached
//! (admission control); a droplet that falls to the water surface is
//! absorbed, removed, and adds one unit of depth to its cell, with
//! absorptions de-duplicated per tick by a coarse integer key.

use vstd::prelude::*;

use crate::fixed::DIM;
use crate::fixed::DT_MAX;
use crate::fixed::G;
use crate::fixed::HEIGHT_SCALE;
use crate::fixed::MAX_HEIGHT;
use crate::fixed::MAX_TERRAIN;
use crate::flux::cell_at;
use crate::terrain::HeightMap;
use crate::water::Water;

verus! {

/// Largest number of droplets alive at once.
pub const MAX_COUNT: usize = 500;

/// A droplet's starting height: 75 world units above the grid plane.
pub const DROP_START_Z: i64 = 75_000_000;

/// Lowest height a surviving droplet can have (just under the deepest
/// terrain); droplets at or below the water surface are absorbed.
pub const DROP_MIN_Z: i64 = -100_000_000;

/// One falling rain droplet: a grid cell and a height.
#[derive(Clone, Copy, Debug, PartialEq, Eq, Structural)]
pub struct Droplet {
    pub x: usize,
    pub y: usize,
    pub z: i64,
}

/// A droplet the rain source may hold.
pub open spec fn droplet_wf(p: Droplet) -> bool {
    p.x < DIM && p.y < DIM && DROP_MIN_Z <= p.z <= DROP_START_Z
}

/// How far a droplet falls in one tick: `g * 10 * dt`.
pub open spec fn fall_amount(dt: int) -> int {
    dt * (G * 10)
}

/// A droplet after one tick of falling.
pub open spec fn fallen(p: Droplet, dt: int) -> Droplet {
    Droplet { x: p.x, y: p.y, z: (p.z - fall_amount(dt)) as i64 }
}

/// The coarse integer key that de-duplicates absorptions within a tick:
/// the cell plus the height in whole world units (negative heights share
/// the zero bucket).
pub open spec fn drop_key(p: Droplet) -> (usize, usize, i64) {
    (p.x, p.y, if p.z < 0 {
        0i64
    } else {
        (p.z as int / (HEIGHT_SCALE as int)) as i64
    })
}

/// Every droplet of `newer` is a droplet of `older` fallen by one tick.
pub open spec fn from_fallen(older: Seq<Droplet>, newer: Seq<Droplet>, dt: int) -> bool {
    forall|m: int|
        0 <= m < newer.len() ==> exists|k: int|
            0 <= k < older.len() && #[trigger] newer[m] == #[trigger] fallen(older[k], dt)
}

/// The highest water surface cell `(x, y)` can reach during one rain
/// tick that started from depth grid `d0` with `n` droplets aloft: the
/// old surface plus one unit per possible absorption, floored at zero
/// (the coarse key lives in the zero bucket below that).
pub open spec fn surface_cap(t: Seq<i64>, d0: Seq<i64>, n: int, x: int, y: int) -> int {
    let srf = t[cell_at(x, y)] + d0[cell_at(x, y)] + HEIGHT_SCALE * n;
    if srf < 0 {
        0
    } else {
        srf
    }
}

/// The rain source.
pub struct Rain {
    droplets: Vec<Droplet>,
}

impl Rain {
    /// The active droplets.
    pub closed spec fn droplets(&self) -> Seq<Droplet> {
        self.droplets@
    }

    /// Well-formed: within the cap, every droplet on the grid.
    pub open spec fn wf(&self) -> bool {
        &&& self.droplets().len() <= MAX_COUNT
        &&& forall|m: int|
            0 <= m < self.droplets().len() ==> droplet_wf(#[trigger] self.droplets()[m])
    }

    /// A fresh rain source with no droplets.
    pub fn new() -> (r: Rain)
        ensures
            r.wf(),
            r.droplets().len() == 0,
    {
        Rain { droplets: Vec::new() }
    }

    /// The number of active droplets (the only state the rain source
    /// exposes for display).
    pub fn droplet_count(&self) -> (n: usize)
        ensures
            n == self.droplets().len(),
    {
        self.droplets.len()
    }

    /// Spawn `3 + 2 * strength` droplets per triggered tick at random grid
    /// cells, stopping early at the droplet cap and spawning nothing once
    /// the water's average depth has reached its ceiling (admission
    /// control): a full rain source or a full basin admits no droplet.
    pub fn spawn_if_triggered(&mut self, trigger: bool, strength: u8, water: &Water)
        requires
            old(self).wf(),
            water.wf(),
        ensures
            final(self).wf(),
            final(self).droplets().len() <= MAX_COUNT,
            !(trigger && water.avg() < MAX_HEIGHT) ==> final(self).droplets() == old(
                self,
            ).droplets(),
            trigger && water.avg() < MAX_HEIGHT ==> {
                let want = 3 + 2 * (strength as int);
                let room = MAX_COUNT - old(self).droplets().len();
                let n = if want < room {
                    want
                } else {
                    room
                };
                &&& final(self).droplets().len() == old(self).droplets().len() + n
                &&& forall|m: int|
                    0 <= m < old(self).droplets().len() ==> #[trigger] final(self).droplets()[m]
                        == old(self).droplets()[m]
                &&& forall|m: int|
                    old(self).droplets().len() <= m < final(self).droplets().len()
                        ==> (#[trigger] final(self).droplets()[m]).z == DROP_START_Z
                        && (final(self).droplets()[m]).x < DIM
                        && (final(self).droplets()[m]).y < DIM
            },
    {
        if !trigger {
            return ;
        }
        if water.get_avg_depth() >= MAX_HEIGHT {
            return ;
        }
        let want: usize = 3 + 2 * (strength as usize);
        let room: usize = MAX_COUNT - self.droplets.len();
        let n: usize = if want < room {
            want
        } else {
            room
        };
        let mut c: usize = 0;
        while c < n
            invariant
                0 <= c <= n,
                self.droplets@.len() == old(self).droplets().len() + c,
                old(self).droplets().len() + n <= MAX_COUNT,
                forall|m: int|
                    0 <= m < old(self).droplets().len() ==> #[trigger] self.droplets@[m] == old(
                        self,
                    ).droplets()[m],
                forall|m: int|
                    old(self).droplets().len() <= m < self.droplets@.len()
                        ==> (#[trigger] self.droplets@[m]).z == DROP_START_Z
                        && self.droplets@[m].x < DIM && self.droplets@[m].y < DIM,
                forall|m: int|
                    0 <= m < self.droplets@.len() ==> droplet_wf(#[trigger] self.droplets@[m]),
            decreases n - c,
        {
            let cell = random_cell();
            self.droplets.push(Droplet { x: cell.0, y: cell.1, z: DROP_START_Z });
            c += 1;
        }
    }

    /// One tick of droplet physics: every droplet falls by `g * 10 * dt`;
    /// a droplet at or below the water surface of its cell is absorbed,
    /// adding one world unit of depth there (subject to the water's depth
    /// ceiling), and absorbed droplets are removed, de-duplicated by the
    /// coarse key. Surviving droplets are exactly old droplets fallen by
    /// one tick, and the water only ever gains depth, through `add_depth`.
    pub fn update_droplets(&mut self, water: &mut Water, terrain: &HeightMap, dt: i64)
        requires
            old(self).wf(),
            old(water).wf(),
            terrain.wf(),
            1 <= dt <= DT_MAX,
        ensures
            final(self).wf(),
            final(water).wf(),
            final(self).droplets().len() <= old(self).droplets().len(),
            from_fallen(old(self).droplets(), final(self).droplets(), dt as int),
            forall|k: int|
                0 <= k < old(self).droplets().len() && (#[trigger] fallen(
                    old(self).droplets()[k],
                    dt as int,
                )).z <= terrain@[cell_at(
                    old(self).droplets()[k].x as int,
                    old(self).droplets()[k].y as int,
                )] + old(water).depths()[cell_at(
                    old(self).droplets()[k].x as int,
                    old(self).droplets()[k].y as int,
                )] ==> !final(self).droplets().contains(
                    fallen(old(self).droplets()[k], dt as int),
                ),
            forall|k: int|
                0 <= k < old(self).droplets().len() && (#[trigger] fallen(
                    old(self).droplets()[k],
                    dt as int,
                )).z > surface_cap(
                    terrain@,
                    old(water).depths(),
                    old(self).droplets().len() as int,
                    old(self).droplets()[k].x as int,
                    old(self).droplets()[k].y as int,
                ) + HEIGHT_SCALE ==> final(self).droplets().contains(
                    fallen(old(self).droplets()[k], dt as int),
                ),
            final(water).pipes_x() == old(water).pipes_x(),
            final(water).pipes_y() == old(water).pipes_y(),
            final(water).avg() == old(water).avg(),
            final(water).input_level() == old(water).input_level(),
            final(water).depths().len() == old(water).depths().len(),
            forall|k: int|
                0 <= k < old(water).depths().len() ==> #[trigger] final(water).depths()[k] >= old(
                    water,
                ).depths()[k],
            old(water).avg() >= MAX_HEIGHT ==> *final(water) == *old(water),
    {
        let ghost w0 = *water;
        let ghost d_init = old(self).droplets();
        let g10: i64 = 98_100;
        let fall: i64 = dt * g10;
        proof {
            assert(fall == fall_amount(dt as int));
        }
        let mut dead: Vec<(usize, usize, i64)> = Vec::new();
        let mut id: usize = 0;
        while id < self.droplets.len()
            invariant
                0 <= id <= self.droplets@.len(),
                self.droplets@.len() == d_init.len(),
                d_init.len() <= MAX_COUNT,
                forall|m: int| 0 <= m < d_init.len() ==> droplet_wf(#[trigger] d_init[m]),
                terrain.wf(),
                1 <= dt <= DT_MAX,
                fall == fall_amount(dt as int),
                98_100 <= fall <= 98_100_000,
                forall|m: int|
                    0 <= m < id ==> #[trigger] self.droplets@[m] == fallen(d_init[m], dt as int),
                forall|m: int|
                    id <= m < self.droplets@.len() ==> #[trigger] self.droplets@[m] == d_init[m],
                forall|m: int|
                    0 <= m < id ==> dead@.contains(drop_key(#[trigger] self.droplets@[m])) || (
                    self.droplets@[m]).z > terrain@[cell_at(
                        self.droplets@[m].x as int,
                        self.droplets@[m].y as int,
                    )] + w0.depths()[cell_at(
                        self.droplets@[m].x as int,
                        self.droplets@[m].y as int,
                    )],
                water.wf(),
                water.pipes_x() == w0.pipes_x(),
                water.pipes_y() == w0.pipes_y(),
                water.avg() == w0.avg(),
                water.input_level() == w0.input_level(),
                water.depths().len() == w0.depths().len(),
                forall|k: int|
                    0 <= k < w0.depths().len() ==> #[trigger] water.depths()[k] >= w0.depths()[k],
                forall|c: int|
                    0 <= c < w0.depths().len() ==> #[trigger] water.depths()[c] <= w0.depths()[c]
                        + HEIGHT_SCALE * id,
                forall|m: int|
                    0 <= m < dead@.len() ==> (#[trigger] dead@[m]).0 < DIM && (dead@[m]).1 < DIM
                        && ((dead@[m]).2 as int) * (HEIGHT_SCALE as int) <= surface_cap(
                        terrain@,
                        w0.depths(),
                        d_init.len() as int,
                        (dead@[m]).0 as int,
                        (dead@[m]).1 as int,
                    ),
                w0.avg() >= MAX_HEIGHT ==> *water == w0,
                w0.wf(),
            decreases self.droplets@.len() - id,
        {
            let p = self.droplets[id];
            let nz: i64 = p.z - fall;
            let np = Droplet { x: p.x, y: p.y, z: nz };
            self.droplets.set(id, np);
            let surface: i64 = water.get_height(terrain, p.x, p.y).unwrap();
            let ghost c: int = cell_at(p.x as int, p.y as int);
            let ghost dead_pre = dead@;
            if surface < nz {
                proof {
                    assert(water.depths()[c] >= w0.depths()[c]);
                    assert(nz > terrain@[c] + w0.depths()[c]);
                }
            } else {
                let key = drop_key_exec(&np);
                if !dead_contains(&dead, key) {
                    water.add_depth(p.x, p.y, HEIGHT_SCALE);
                    dead.push(key);
                    proof {
                        assert(dead@[dead@.len() - 1] == key);
                        assert((key.2 as int) * (HEIGHT_SCALE as int) <= surface_cap(
                            terrain@,
                            w0.depths(),
                            d_init.len() as int,
                            key.0 as int,
                            key.1 as int,
                        )) by {
                            assert(nz <= surface);
                            assert(surface <= terrain@[c] + w0.depths()[c] + HEIGHT_SCALE * (
                            id as int));
                            if np.z >= 0 {
                                vstd::arithmetic::div_mod::lemma_fundamental_div_mod(
                                    np.z as int,
                                    HEIGHT_SCALE as int,
                                );
                                vstd::arithmetic::div_mod::lemma_mod_bound(
                                    np.z as int,
                                    HEIGHT_SCALE as int,
                                );
                            } else {
                                vstd::arithmetic::mul::lemma_mul_basics(HEIGHT_SCALE as int);
                            }
                        }
                    }
                }
                proof {
                    assert(dead@.contains(key));
                    assert(key == drop_key(np));
                }
            }
            proof {
                assert forall|t: (usize, usize, i64)| dead_pre.contains(t) implies dead@.contains(
                    t,
                ) by {
                    let w = choose|w: int| 0 <= w < dead_pre.len() && dead_pre[w] == t;
                    assert(dead@[w] == t);
                }
            }
            id += 1;
        }
        let ghost dropped = self.droplets@;
        let ghost dead_final = dead@;
        let mut kept: Vec<Droplet> = Vec::new();
        let mut m: usize = 0;
        while m < self.droplets.len()
            invariant
                0 <= m <= self.droplets@.len(),
                self.droplets@ == dropped,
                dead@ == dead_final,
                dropped.len() == d_init.len(),
                d_init.len() <= MAX_COUNT,
                forall|m2: int| 0 <= m2 < d_init.len() ==> droplet_wf(#[trigger] d_init[m2]),
                terrain.wf(),
                w0.wf(),
                water.depths().len() == w0.depths().len(),
                1 <= dt <= DT_MAX,
                fall == fall_amount(dt as int),
                98_100 <= fall <= 98_100_000,
                forall|m2: int|
                    0 <= m2 < dropped.len() ==> #[trigger] dropped[m2] == fallen(
                        d_init[m2],
                        dt as int,
                    ),
                forall|m2: int|
                    0 <= m2 < dropped.len() ==> dead_final.contains(drop_key(#[trigger] dropped[m2]))
                        || (dropped[m2]).z > terrain@[cell_at(
                        dropped[m2].x as int,
                        dropped[m2].y as int,
                    )] + w0.depths()[cell_at(dropped[m2].x as int, dropped[m2].y as int)],
                kept@.len() <= m,
                from_fallen(d_init, kept@, dt as int),
                forall|w: int|
                    0 <= w < kept@.len() ==> !dead_final.contains(
                        drop_key(#[trigger] kept@[w]),
                    ),
                forall|m2: int|
                    0 <= m2 < m ==> (!dead_final.contains(drop_key(#[trigger] dropped[m2]))
                        ==> kept@.contains(dropped[m2])),
                forall|w: int| 0 <= w < kept@.len() ==> droplet_wf(#[trigger] kept@[w]),
            decreases self.droplets@.len() - m,
        {
            let p = self.droplets[m];
            proof {
                assert(dropped[m as int] == fallen(d_init[m as int], dt as int));
                assert(droplet_wf(d_init[m as int]));
            }
            let key = drop_key_exec(&p);
            if !dead_contains(&dead, key) {
                proof {
                    let c = cell_at(p.x as int, p.y as int);
                    assert(!dead_final.contains(drop_key(p)));
                    assert(p.z > terrain@[c] + w0.depths()[c]);
                    assert(terrain@[c] > -MAX_TERRAIN);
                    assert(w0.depths()[c] >= 0);
                    assert(droplet_wf(p));
                }
                let ghost kpre = kept@;
                kept.push(p);
                proof {
                    assert(kept@[kept@.len() - 1] == dropped[m as int]);
                    assert(kept@.contains(dropped[m as int]));
                    assert forall|m2: int|
                        0 <= m2 < m && !dead_final.contains(
                            drop_key(#[trigger] dropped[m2]),
                        ) implies kept@.contains(dropped[m2]) by {
                        let w = choose|w: int| 0 <= w < kpre.len() && kpre[w] == dropped[m2];
                        assert(kept@[w] == dropped[m2]);
                    }
                    assert(kept@[kept@.len() - 1] == fallen(d_init[m as int], dt as int));
                    assert forall|w: int| 0 <= w < kept@.len() implies exists|k: int|
                        0 <= k < d_init.len() && #[trigger] kept@[w] == #[trigger] fallen(
                            d_init[k],
                            dt as int,
                        ) by {
                        if w < kept@.len() - 1 {
                            assert(kept@[w] == kpre[w]);
                            assert(exists|k: int|
                                0 <= k < d_init.len() && #[trigger] kpre[w] == #[trigger] fallen(
                                    d_init[k],
                                    dt as int,
                                ));
                        }
                    }
                    assert(from_fallen(d_init, kept@, dt as int));
                }
            }
            m += 1;
        }
        self.droplets = kept;
        proof {
            assert forall|k: int|
                0 <= k < d_init.len() && (#[trigger] fallen(d_init[k], dt as int)).z <= terrain@[
                    cell_at(d_init[k].x as int, d_init[k].y as int)
                ] + w0.depths()[cell_at(d_init[k].x as int, d_init[k].y as int)] implies !self
                .droplets@.contains(fallen(d_init[k], dt as int)) by {
                let target = fallen(d_init[k], dt as int);
                if self.droplets@.contains(target) {
                    let w = choose|w: int| 0 <= w < kept@.len() && kept@[w] == target;
                    assert(!dead_final.contains(drop_key(kept@[w])));
                    assert(dropped[k] == target);
                    assert(dead_final.contains(drop_key(dropped[k])) || (dropped[k]).z > terrain@[
                        cell_at(dropped[k].x as int, dropped[k].y as int)
                    ] + w0.depths()[cell_at(dropped[k].x as int, dropped[k].y as int)]);
                    assert(false);
                }
            }
            assert forall|k: int|
                0 <= k < d_init.len() && (#[trigger] fallen(d_init[k], dt as int)).z
                    > surface_cap(
                    terrain@,
                    w0.depths(),
                    d_init.len() as int,
                    d_init[k].x as int,
                    d_init[k].y as int,
                ) + HEIGHT_SCALE implies self.droplets@.contains(fallen(d_init[k], dt as int)) by {
                let target = fallen(d_init[k], dt as int);
                let cap = surface_cap(
                    terrain@,
                    w0.depths(),
                    d_init.len() as int,
                    d_init[k].x as int,
                    d_init[k].y as int,
                );
                assert(target == dropped[k]);
                assert(target.z > cap + HEIGHT_SCALE);
                assert(cap >= 0);
                if dead_final.contains(drop_key(target)) {
                    let w = choose|w: int|
                        0 <= w < dead_final.len() && dead_final[w] == drop_key(target);
                    assert(((dead_final[w]).2 as int) * (HEIGHT_SCALE as int) <= cap);
                    assert((drop_key(target).2 as int) * (HEIGHT_SCALE as int) > cap) by {
                        vstd::arithmetic::div_mod::lemma_fundamental_div_mod(
                            target.z as int,
                            HEIGHT_SCALE as int,
                        );
                        vstd::arithmetic::div_mod::lemma_mod_bound(
                            target.z as int,
                            HEIGHT_SCALE as int,
                        );
                    }
                    assert(false);
                }
                assert(kept@.contains(target));
            }
        }

    }
}

/// The coarse absorption key at runtime.
fn drop_key_exec(p: &Droplet) -> (key: (usize, usize, i64))
    requires
        p.x < DIM,
        p.y < DIM,
        p.z > i64::MIN,
    ensures
        key == drop_key(*p),
        key.0 == p.x,
        key.1 == p.y,
{
    let b: i64 = if p.z < 0 {
        0
    } else {
        crate::fixed::div_i64(p.z, HEIGHT_SCALE)
    };
    (p.x, p.y, b)
}

/// Linear search in the dead-key list.
fn dead_contains(dead: &Vec<(usize, usize, i64)>, key: (usize, usize, i64)) -> (r: bool)
    ensures
        r == dead@.contains(key),
{
    let mut k: usize = 0;
    while k < dead.len()
        invariant
            0 <= k <= dead@.len(),
            forall|m: int| 0 <= m < k ==> #[trigger] dead@[m] != key,
        decreases dead@.len() - k,
    {
        let c = dead[k];
        if c.0 == key.0 && c.1 == key.1 && c.2 == key.2 {
            proof {
                assert(dead@[k as int] == key);
                assert(dead@.contains(key));
            }
            return true;
        }
        k += 1;
    }
    false
}

/// Relies on rand::random: one fresh value from the thread-local
/// generator; nothing is assumed about which value comes back.
#[verifier::external_body]
fn random_u64() -> u64 {
    rand::random::<u64>()
}

/// A uniformly random grid cell, from two independent draws.
fn random_cell() -> (r: (usize, usize))
    ensures
        r.0 < DIM,
        r.1 < DIM,
{
    let a: u64 = random_u64();
    let b: u64 = random_u64();
    let x: u64 = a % (DIM as u64);
    let y: u64 = b % (DIM as u64);
    (x as usize, y as usize)
}

} // verus!
