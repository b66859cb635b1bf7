//! The hydraulic simulator: per-cell water depth, per-edge virtual-pipe
//! flow, and the imperative operations that outside callers use to add and
//! drain water. One tick is `step`: flow acceleration (step A), outflow
//! capping (step B), and the depth update with the new average (step C).

use vstd::prelude::*;

use crate::fixed::DEPTH_LIMIT;
use crate::fixed::DIM;
use crate::fixed::DIM_M1;
use crate::fixed::DT_MAX;
use crate::fixed::EPS_DEPTH;
use crate::fixed::MAX_HEIGHT;
use crate::fixed::SAFE_DEPTH;
use crate::fixed::clamp;
use crate::flux::cell_at;
use crate::flux::depth_sum;
use crate::flux::depth_after;
use crate::flux::depths_wf;
use crate::flux::all_feasible;
use crate::flux::shrunk;
use crate::flux::flows_wf;
use crate::flux::lemma_volume_conserved;
use crate::flux::limit_flows;
use crate::flux::step_a_edge;
use crate::flux::update_depths;
use crate::flux::update_pipes_flow;
use crate::flux::xedge_at;
use crate::flux::yedge_at;
use crate::terrain::HeightMap;

verus! {

/// Water added to every cell of the inlet row by one `raise_water` call,
/// per strength level: 0.5 world units plus 0.5 per level.
pub const RAISE_STEP: i64 = 500_000;

/// Water added to (or drained from) every sea-level cell per strength
/// level by the bulk controls: 0.1 world units plus 0.1 per level.
pub const SEA_STEP: i64 = 100_000;

/// The hydraulic simulator's state.
pub struct Water {
    depths: Vec<i64>,
    pipes_x: Vec<i64>,
    pipes_y: Vec<i64>,
    avg_depth: i64,
    input_str: u8,
}

impl Water {
    /// The per-cell depth grid, row-major.
    pub closed spec fn depths(&self) -> Seq<i64> {
        self.depths@
    }

    /// Pipe flows between horizontal neighbours; positive carries water
    /// toward increasing `x`.
    pub closed spec fn pipes_x(&self) -> Seq<i64> {
        self.pipes_x@
    }

    /// Pipe flows between vertical neighbours; positive carries water
    /// toward increasing `y`.
    pub closed spec fn pipes_y(&self) -> Seq<i64> {
        self.pipes_y@
    }

    /// The average depth computed by the latest tick.
    pub closed spec fn avg(&self) -> int {
        self.avg_depth as int
    }

    /// The input-strength level, between 0 and 2.
    pub closed spec fn input_level(&self) -> int {
        self.input_str as int
    }

    /// Well-formed simulator state.
    pub open spec fn wf(&self) -> bool {
        &&& depths_wf(self.depths())
        &&& flows_wf(self.pipes_x(), self.pipes_y())
        &&& 0 <= self.avg() <= DEPTH_LIMIT
        &&& 0 <= self.input_level() <= 2
    }

    /// A fresh simulator: everything dry and still, strength level 1.
    pub fn new() -> (w: Water)
        ensures
            w.wf(),
            w.depths() == Seq::new((DIM * DIM) as nat, |k: int| 0i64),
            w.pipes_x() == Seq::new(((DIM - 1) * DIM) as nat, |k: int| 0i64),
            w.pipes_y() == Seq::new((DIM * (DIM - 1)) as nat, |k: int| 0i64),
            w.avg() == 0,
            w.input_level() == 1,
    {
        let depths = zero_grid(DIM * DIM);
        let pipes_x = zero_grid(DIM_M1 * DIM);
        let pipes_y = zero_grid(DIM * DIM_M1);
        proof {
            assert(depths@ =~= Seq::new((DIM * DIM) as nat, |k: int| 0i64));
            assert(pipes_x@ =~= Seq::new(((DIM - 1) * DIM) as nat, |k: int| 0i64));
            assert(pipes_y@ =~= Seq::new((DIM * (DIM - 1)) as nat, |k: int| 0i64));
        }
        Water { depths, pipes_x, pipes_y, avg_depth: 0, input_str: 1 }
    }

    /// One simulation tick: accelerate and damp the pipe flows from the
    /// driving heads (step A), cap outflows so no depth can go negative
    /// (step B), then apply the net fluxes and recompute the average depth
    /// (step C). Afterwards every depth is nonnegative; every pipe between
    /// two cells that were both dry reads exactly zero; and as long as
    /// every depth sits below `SAFE_DEPTH` (so the machine clamp stays
    /// idle), the tick conserves the total water volume exactly.
    pub fn step(&mut self, terrain: &HeightMap, dt: i64)
        requires
            old(self).wf(),
            terrain.wf(),
            1 <= dt <= DT_MAX,
        ensures
            final(self).wf(),
            final(self).depths().len() == DIM * DIM,
            forall|k: int|
                0 <= k < DIM * DIM ==> 0 <= #[trigger] final(self).depths()[k] <= DEPTH_LIMIT,
            forall|i: int, j: int|
                0 <= i < DIM - 1 && 0 <= j < DIM && old(self).depths()[cell_at(i, j)] <= EPS_DEPTH
                    && old(self).depths()[cell_at(i + 1, j)] <= EPS_DEPTH
                    ==> #[trigger] final(self).pipes_x()[xedge_at(i, j)] == 0,
            forall|i: int, j: int|
                0 <= i < DIM && 0 <= j < DIM - 1 && old(self).depths()[cell_at(i, j)] <= EPS_DEPTH
                    && old(self).depths()[cell_at(i, j + 1)] <= EPS_DEPTH
                    ==> #[trigger] final(self).pipes_y()[yedge_at(i, j)] == 0,
            forall|i: int, j: int|
                0 <= i < DIM - 1 && 0 <= j < DIM ==> shrunk(
                    step_a_edge(
                        old(self).pipes_x()[xedge_at(i, j)] as int,
                        old(self).depths(),
                        terrain@,
                        dt as int,
                        cell_at(i, j),
                        cell_at(i + 1, j),
                    ),
                    #[trigger] final(self).pipes_x()[xedge_at(i, j)] as int,
                ),
            forall|i: int, j: int|
                0 <= i < DIM && 0 <= j < DIM - 1 ==> shrunk(
                    step_a_edge(
                        old(self).pipes_y()[yedge_at(i, j)] as int,
                        old(self).depths(),
                        terrain@,
                        dt as int,
                        cell_at(i, j),
                        cell_at(i, j + 1),
                    ),
                    #[trigger] final(self).pipes_y()[yedge_at(i, j)] as int,
                ),
            all_feasible(
                old(self).depths(),
                final(self).pipes_x(),
                final(self).pipes_y(),
                dt as int,
            ),
            forall|i: int, j: int|
                0 <= i < DIM && 0 <= j < DIM ==> final(self).depths()[cell_at(i, j)]
                    == #[trigger] depth_after(
                    old(self).depths(),
                    final(self).pipes_x(),
                    final(self).pipes_y(),
                    dt as int,
                    i,
                    j,
                ),
            final(self).avg() == depth_sum(final(self).depths()) / ((DIM * DIM) as int),
            (forall|k: int| 0 <= k < DIM * DIM ==> #[trigger] old(self).depths()[k] <= SAFE_DEPTH)
                ==> depth_sum(final(self).depths()) == depth_sum(old(self).depths()),
            final(self).input_level() == old(self).input_level(),
    {
        let ghost d0 = self.depths@;
        let t = terrain.height_points();
        update_pipes_flow(&mut self.pipes_x, &mut self.pipes_y, &self.depths, t, dt);
        let ghost pxa = self.pipes_x@;
        let ghost pya = self.pipes_y@;
        proof {
            assert forall|i: int, j: int|
                0 <= i < DIM - 1 && 0 <= j < DIM && d0[cell_at(i, j)] <= EPS_DEPTH && d0[cell_at(
                    i + 1,
                    j,
                )] <= EPS_DEPTH implies #[trigger] pxa[xedge_at(i, j)] == 0 by {
                assert(pxa[xedge_at(i, j)] == step_a_edge(
                    old(self).pipes_x()[xedge_at(i, j)] as int,
                    d0,
                    t@,
                    dt as int,
                    cell_at(i, j),
                    cell_at(i + 1, j),
                ));
            }
            assert forall|i: int, j: int|
                0 <= i < DIM && 0 <= j < DIM - 1 && d0[cell_at(i, j)] <= EPS_DEPTH && d0[cell_at(
                    i,
                    j + 1,
                )] <= EPS_DEPTH implies #[trigger] pya[yedge_at(i, j)] == 0 by {
                assert(pya[yedge_at(i, j)] == step_a_edge(
                    old(self).pipes_y()[yedge_at(i, j)] as int,
                    d0,
                    t@,
                    dt as int,
                    cell_at(i, j),
                    cell_at(i, j + 1),
                ));
            }
        }
        limit_flows(&mut self.pipes_x, &mut self.pipes_y, &self.depths, dt);
        proof {
            assert forall|i: int, j: int| 0 <= i < DIM - 1 && 0 <= j < DIM implies shrunk(
                step_a_edge(
                    old(self).pipes_x()[xedge_at(i, j)] as int,
                    d0,
                    t@,
                    dt as int,
                    cell_at(i, j),
                    cell_at(i + 1, j),
                ),
                #[trigger] self.pipes_x@[xedge_at(i, j)] as int,
            ) by {
                assert(shrunk(pxa[xedge_at(i, j)] as int, self.pipes_x@[xedge_at(i, j)] as int));
            }
            assert forall|i: int, j: int| 0 <= i < DIM && 0 <= j < DIM - 1 implies shrunk(
                step_a_edge(
                    old(self).pipes_y()[yedge_at(i, j)] as int,
                    d0,
                    t@,
                    dt as int,
                    cell_at(i, j),
                    cell_at(i, j + 1),
                ),
                #[trigger] self.pipes_y@[yedge_at(i, j)] as int,
            ) by {
                assert(shrunk(pya[yedge_at(i, j)] as int, self.pipes_y@[yedge_at(i, j)] as int));
            }
        }
        let avg = update_depths(&mut self.depths, &self.pipes_x, &self.pipes_y, dt);
        self.avg_depth = avg;
        proof {
            if forall|k: int| 0 <= k < DIM * DIM ==> #[trigger] d0[k] <= SAFE_DEPTH {
                lemma_volume_conserved(d0, self.depths@, self.pipes_x@, self.pipes_y@, dt as int);
            }
        }
    }

    /// Water surface height at cell `(x, y)`: terrain plus depth. `None`
    /// exactly when the cell is off the grid.
    pub fn get_height(&self, terrain: &HeightMap, x: usize, y: usize) -> (r: Option<i64>)
        requires
            self.wf(),
            terrain.wf(),
        ensures
            x < DIM && y < DIM ==> r == Some(
                (terrain@[cell_at(x as int, y as int)] + self.depths()[cell_at(
                    x as int,
                    y as int,
                )]) as i64,
            ),
            !(x < DIM && y < DIM) ==> r is None,
    {
        if x < DIM && y < DIM {
            let k: usize = x + y * DIM;
            let t = terrain.height_points();
            Some(t[k] + self.depths[k])
        } else {
            None
        }
    }

    /// Add water to cell `(x, y)`, refused entirely once the average depth
    /// has reached `MAX_HEIGHT` (the depth ceiling): water sources cannot
    /// push the simulation past its ceiling.
    pub fn add_depth(&mut self, x: usize, y: usize, amount: i64)
        requires
            old(self).wf(),
            x < DIM,
            y < DIM,
            0 <= amount <= DEPTH_LIMIT,
        ensures
            final(self).wf(),
            old(self).avg() >= MAX_HEIGHT ==> *final(self) == *old(self),
            old(self).avg() < MAX_HEIGHT ==> final(self).depths() == old(self).depths().update(
                cell_at(x as int, y as int),
                clamp(
                    old(self).depths()[cell_at(x as int, y as int)] + amount,
                    0,
                    DEPTH_LIMIT as int,
                ) as i64,
            ),
            final(self).pipes_x() == old(self).pipes_x(),
            final(self).pipes_y() == old(self).pipes_y(),
            final(self).avg() == old(self).avg(),
            final(self).input_level() == old(self).input_level(),
    {
        if self.avg_depth >= MAX_HEIGHT {
            return ;
        }
        let k: usize = x + y * DIM;
        let v: i64 = self.depths[k];
        let nv: i64 = if v + amount > DEPTH_LIMIT {
            DEPTH_LIMIT
        } else {
            v + amount
        };
        self.depths.set(k, nv);
    }

    /// The manual raise-water control: add half a world unit, plus half
    /// per strength level, to every cell of the inlet row `y == 0`;
    /// refused entirely once the average depth has reached the ceiling.
    pub fn raise_water(&mut self)
        requires
            old(self).wf(),
        ensures
            final(self).wf(),
            old(self).avg() >= MAX_HEIGHT ==> *final(self) == *old(self),
            old(self).avg() < MAX_HEIGHT ==> final(self).depths().len() == old(
                self,
            ).depths().len() && (forall|i: int|
                0 <= i < DIM ==> #[trigger] final(self).depths()[cell_at(i, 0)] == clamp(
                    old(self).depths()[cell_at(i, 0)] + RAISE_STEP * (1 + old(self).input_level()),
                    0,
                    DEPTH_LIMIT as int,
                )) && (forall|k: int|
                DIM <= k < DIM * DIM ==> #[trigger] final(self).depths()[k] == old(
                    self,
                ).depths()[k]),
            final(self).pipes_x() == old(self).pipes_x(),
            final(self).pipes_y() == old(self).pipes_y(),
            final(self).avg() == old(self).avg(),
            final(self).input_level() == old(self).input_level(),
    {
        if self.avg_depth >= MAX_HEIGHT {
            return ;
        }
        let amount: i64 = RAISE_STEP + RAISE_STEP * (self.input_str as i64);
        let mut i: usize = 0;
        while i < DIM
            invariant
                0 <= i <= DIM,
                self.depths@.len() == DIM * DIM,
                old(self).depths().len() == DIM * DIM,
                self.pipes_x@ == old(self).pipes_x(),
                self.pipes_y@ == old(self).pipes_y(),
                self.avg_depth == old(self).avg_depth,
                self.input_str == old(self).input_str,
                0 <= amount <= 3 * RAISE_STEP,
                amount == RAISE_STEP * (1 + old(self).input_level()),
                forall|m: int|
                    0 <= m < i ==> #[trigger] self.depths@[m] == clamp(
                        old(self).depths()[m] + amount,
                        0,
                        DEPTH_LIMIT as int,
                    ),
                forall|m: int| i <= m < DIM * DIM ==> #[trigger] self.depths@[m] == old(
                    self,
                ).depths()[m],
                forall|m: int| 0 <= m < DIM * DIM ==> 0 <= #[trigger] self.depths@[m] <= DEPTH_LIMIT,
            decreases DIM - i,
        {
            let v: i64 = self.depths[i];
            let nv: i64 = if v + amount > DEPTH_LIMIT {
                DEPTH_LIMIT
            } else {
                v + amount
            };
            self.depths.set(i, nv);
            i += 1;
        }
    }

    /// The bulk tide control: add a tenth of a world unit, plus a tenth
    /// per strength level, to every cell whose terrain sits at (near) sea
    /// level; refused entirely once the average depth has reached the
    /// ceiling.
    pub fn raise_sea(&mut self, terrain: &HeightMap)
        requires
            old(self).wf(),
            terrain.wf(),
        ensures
            final(self).wf(),
            old(self).avg() >= MAX_HEIGHT ==> *final(self) == *old(self),
            old(self).avg() < MAX_HEIGHT ==> final(self).depths().len() == old(
                self,
            ).depths().len() && (forall|k: int|
                0 <= k < DIM * DIM ==> #[trigger] final(self).depths()[k] == (
                if -EPS_DEPTH <= terrain@[k] <= EPS_DEPTH {
                    clamp(
                        old(self).depths()[k] + SEA_STEP * (1 + old(self).input_level()),
                        0,
                        DEPTH_LIMIT as int,
                    )
                } else {
                    old(self).depths()[k] as int
                })),
            final(self).pipes_x() == old(self).pipes_x(),
            final(self).pipes_y() == old(self).pipes_y(),
            final(self).avg() == old(self).avg(),
            final(self).input_level() == old(self).input_level(),
    {
        if self.avg_depth >= MAX_HEIGHT {
            return ;
        }
        let amount: i64 = SEA_STEP + SEA_STEP * (self.input_str as i64);
        let t = terrain.height_points();
        let mut k: usize = 0;
        while k < DIM * DIM
            invariant
                0 <= k <= DIM * DIM,
                self.depths@.len() == DIM * DIM,
                old(self).depths().len() == DIM * DIM,
                self.pipes_x@ == old(self).pipes_x(),
                self.pipes_y@ == old(self).pipes_y(),
                self.avg_depth == old(self).avg_depth,
                self.input_str == old(self).input_str,
                terrain.wf(),
                t@ == terrain@,
                0 <= amount <= 3 * SEA_STEP,
                amount == SEA_STEP * (1 + old(self).input_level()),
                forall|m: int|
                    0 <= m < k ==> #[trigger] self.depths@[m] == (
                    if -EPS_DEPTH <= terrain@[m] <= EPS_DEPTH {
                        clamp(old(self).depths()[m] + amount, 0, DEPTH_LIMIT as int)
                    } else {
                        old(self).depths()[m] as int
                    }),
                forall|m: int| k <= m < DIM * DIM ==> #[trigger] self.depths@[m] == old(
                    self,
                ).depths()[m],
                forall|m: int| 0 <= m < DIM * DIM ==> 0 <= #[trigger] self.depths@[m] <= DEPTH_LIMIT,
            decreases DIM * DIM - k,
        {
            let th: i64 = t[k];
            if -EPS_DEPTH <= th && th <= EPS_DEPTH {
                let v: i64 = self.depths[k];
                let nv: i64 = if v + amount > DEPTH_LIMIT {
                    DEPTH_LIMIT
                } else {
                    v + amount
                };
                self.depths.set(k, nv);
            }
            k += 1;
        }
    }

    /// Drain water from cell `(x, y)`, allowed only where the terrain sits
    /// at (near) sea level. A cell driven to (near) zero is set exactly dry
    /// and every adjacent pipe whose flow would push water back into it is
    /// reset to zero, so no phantom flow refills a drained cell on the
    /// next tick.
    pub fn drain(&mut self, terrain: &HeightMap, x: usize, y: usize, amount: i64)
        requires
            old(self).wf(),
            terrain.wf(),
            x < DIM,
            y < DIM,
            0 <= amount <= DEPTH_LIMIT,
        ensures
            final(self).wf(),
            !(-EPS_DEPTH <= terrain@[cell_at(x as int, y as int)] <= EPS_DEPTH) ==> *final(self)
                == *old(self),
            -EPS_DEPTH <= terrain@[cell_at(x as int, y as int)] <= EPS_DEPTH ==> ({
                let k = cell_at(x as int, y as int);
                let nd = old(self).depths()[k] - amount;
                &&& (nd > EPS_DEPTH ==> final(self).depths() == old(self).depths().update(
                    k,
                    nd as i64,
                ) && final(self).pipes_x() == old(self).pipes_x() && final(self).pipes_y() == old(
                    self,
                ).pipes_y())
                &&& (nd <= EPS_DEPTH ==> final(self).depths() == old(self).depths().update(k, 0i64)
                    && (forall|e: int|
                    0 <= e < old(self).pipes_x().len() && !(x < DIM - 1 && e == xedge_at(
                        x as int,
                        y as int,
                    )) && !(x > 0 && e == xedge_at(x as int - 1, y as int))
                        ==> #[trigger] final(self).pipes_x()[e] == old(self).pipes_x()[e]) && (
                forall|e: int|
                    0 <= e < old(self).pipes_y().len() && !(y < DIM - 1 && e == yedge_at(
                        x as int,
                        y as int,
                    )) && !(y > 0 && e == yedge_at(x as int, y as int - 1))
                        ==> #[trigger] final(self).pipes_y()[e] == old(self).pipes_y()[e]) && (x
                    < DIM - 1 ==> final(self).pipes_x()[xedge_at(x as int, y as int)] == (
                if old(self).pipes_x()[xedge_at(x as int, y as int)] < 0 {
                    0
                } else {
                    old(self).pipes_x()[xedge_at(x as int, y as int)] as int
                })) && (x > 0 ==> final(self).pipes_x()[xedge_at(x as int - 1, y as int)] == (
                if old(self).pipes_x()[xedge_at(x as int - 1, y as int)] > 0 {
                    0
                } else {
                    old(self).pipes_x()[xedge_at(x as int - 1, y as int)] as int
                })) && (y < DIM - 1 ==> final(self).pipes_y()[yedge_at(x as int, y as int)] == (
                if old(self).pipes_y()[yedge_at(x as int, y as int)] < 0 {
                    0
                } else {
                    old(self).pipes_y()[yedge_at(x as int, y as int)] as int
                })) && (y > 0 ==> final(self).pipes_y()[yedge_at(x as int, y as int - 1)] == (
                if old(self).pipes_y()[yedge_at(x as int, y as int - 1)] > 0 {
                    0
                } else {
                    old(self).pipes_y()[yedge_at(x as int, y as int - 1)] as int
                })))
            }),
            final(self).avg() == old(self).avg(),
            final(self).input_level() == old(self).input_level(),
    {
        let t = terrain.height_points();
        let k: usize = x + y * DIM;
        let th: i64 = t[k];
        if !(-EPS_DEPTH <= th && th <= EPS_DEPTH) {
            return ;
        }
        let v: i64 = self.depths[k];
        let nd: i64 = v - amount;
        if nd > EPS_DEPTH {
            self.depths.set(k, nd);
        } else {
            self.depths.set(k, 0);
            if x < DIM_M1 {
                let e: usize = x + y * DIM_M1;
                if self.pipes_x[e] < 0 {
                    self.pipes_x.set(e, 0);
                }
            }
            if x > 0 {
                let e: usize = x - 1 + y * DIM_M1;
                if self.pipes_x[e] > 0 {
                    self.pipes_x.set(e, 0);
                }
            }
            if y < DIM_M1 {
                let e: usize = x + y * DIM;
                if self.pipes_y[e] < 0 {
                    self.pipes_y.set(e, 0);
                }
            }
            if y > 0 {
                let e: usize = x + (y - 1) * DIM;
                if self.pipes_y[e] > 0 {
                    self.pipes_y.set(e, 0);
                }
            }
        }
    }

    /// The flow of the pipe between cells `(x, y)` and `(x + 1, y)`;
    /// `None` exactly when no such pipe exists.
    pub fn get_flow_x(&self, x: usize, y: usize) -> (r: Option<i64>)
        requires
            self.wf(),
        ensures
            x < DIM - 1 && y < DIM ==> r == Some(self.pipes_x()[xedge_at(x as int, y as int)]),
            !(x < DIM - 1 && y < DIM) ==> r is None,
    {
        if x < DIM_M1 && y < DIM {
            Some(self.pipes_x[x + y * DIM_M1])
        } else {
            None
        }
    }

    /// The flow of the pipe between cells `(x, y)` and `(x, y + 1)`;
    /// `None` exactly when no such pipe exists.
    pub fn get_flow_y(&self, x: usize, y: usize) -> (r: Option<i64>)
        requires
            self.wf(),
        ensures
            x < DIM && y < DIM - 1 ==> r == Some(self.pipes_y()[yedge_at(x as int, y as int)]),
            !(x < DIM && y < DIM - 1) ==> r is None,
    {
        if x < DIM && y < DIM_M1 {
            Some(self.pipes_y[x + y * DIM])
        } else {
            None
        }
    }

    /// The average depth of the latest tick.
    pub fn get_avg_depth(&self) -> (r: i64)
        ensures
            r == self.avg(),
    {
        self.avg_depth
    }

    /// The current input-strength level.
    pub fn input_str(&self) -> (r: u8)
        ensures
            r == self.input_level(),
    {
        self.input_str
    }

    /// Raise the input-strength level by one, up to its bound of 2.
    pub fn increment_input(&mut self)
        requires
            old(self).wf(),
        ensures
            final(self).wf(),
            final(self).input_level() == if old(self).input_level() < 2 {
                old(self).input_level() + 1
            } else {
                old(self).input_level()
            },
            final(self).depths() == old(self).depths(),
            final(self).pipes_x() == old(self).pipes_x(),
            final(self).pipes_y() == old(self).pipes_y(),
            final(self).avg() == old(self).avg(),
    {
        if self.input_str < 2 {
            self.input_str = self.input_str + 1;
        }
    }

    /// Lower the input-strength level by one, down to zero.
    pub fn decrement_input(&mut self)
        requires
            old(self).wf(),
        ensures
            final(self).wf(),
            final(self).input_level() == if old(self).input_level() > 0 {
                old(self).input_level() - 1
            } else {
                old(self).input_level()
            },
            final(self).depths() == old(self).depths(),
            final(self).pipes_x() == old(self).pipes_x(),
            final(self).pipes_y() == old(self).pipes_y(),
            final(self).avg() == old(self).avg(),
    {
        if self.input_str > 0 {
            self.input_str = self.input_str - 1;
        }
    }
}

/// A grid of zeroes.
fn zero_grid(n: usize) -> (v: Vec<i64>)
    ensures
        v@.len() == n,
        forall|k: int| 0 <= k < n ==> #[trigger] v@[k] == 0i64,
{
    let mut v: Vec<i64> = Vec::new();
    let mut k: usize = 0;
    while k < n
        invariant
            0 <= k <= n,
            v@.len() == k,
            forall|m: int| 0 <= m < k ==> #[trigger] v@[m] == 0i64,
        decreases n - k,
    {
        v.push(0);
        k += 1;
    }
    v
}

} // verus!
