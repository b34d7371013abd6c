//! The discretized routing grid: board coordinates mapped onto a flat array
//! of cells over (x, y, layer), with the obstacles of an existing board
//! stamped in.

use crate::router::KicadPcb;
use crate::router::NetId;
use crate::router::RouterSettings;
use crate::router::Wire;
use crate::router::Via;
use crate::router::view_wires;
use crate::router::view_vias;
use crate::router::view_layers;
use crate::router::view_nets;
use crate::router::view_footprints;
use crate::router::PadV;
use crate::router::FootprintV;
use crate::router::LayerV;
use crate::router::ViaV;
use crate::router::WireV;
use crate::value::Decimal;
use crate::value::MAX_SCALE;
use crate::value::pow10;
use crate::value::pow10_u64;
use vstd::arithmetic::div_mod::lemma_fundamental_div_mod_converse;
use vstd::prelude::*;

verus! {

/// A cell position: x, y, and layer.
#[derive(Debug, Clone, Copy, PartialEq, Eq, Structural)]
pub struct Discrete3D {
    pub x: usize,
    pub y: usize,
    pub layer: usize,
}

impl Discrete3D {
    pub fn from(x: usize, y: usize, layer: usize) -> (r: Self)
        ensures
            r == (Discrete3D { x, y, layer }),
    {
        Self { x: x, y: y, layer: layer }
    }
}

/// What occupies a cell. `UserWire` and `UserVia` mark routes that were
/// placed by hand and may never be overwritten; `Wire` and `Via` mark routes
/// this engine placed.
#[derive(Debug, Clone, Copy, PartialEq, Eq, Structural)]
pub enum GridState {
    Free,
    Pad,
    Wire,
    Via,
    UserWire,
    UserVia,
}

/// The flat index of a cell in a grid of `xc` by `yc` cells per layer.
pub open spec fn grid_index(xc: int, yc: int, x: int, y: int, l: int) -> int {
    (l * xc + x) * yc + y
}

/// The cell a flat index names: the inverse of [`grid_index`].
pub open spec fn grid_index_inv(xc: int, yc: int, i: int) -> (int, int, int) {
    ((i / yc) % xc, i % yc, (i / yc) / xc)
}

/// Grid indexing is a bijection: within bounds, every cell has a distinct
/// flat index below the grid's size, and the inverse mapping returns exactly
/// the cell that was indexed — no two cells alias.
pub proof fn lemma_grid_index_bijection(xc: int, yc: int, zc: int, x: int, y: int, l: int)
    requires
        0 <= x < xc,
        0 <= y < yc,
        0 <= l < zc,
    ensures
        0 <= grid_index(xc, yc, x, y, l) < xc * yc * zc,
        grid_index_inv(xc, yc, grid_index(xc, yc, x, y, l)) == (x, y, l),
{
    let i = grid_index(xc, yc, x, y, l);
    assert(0 <= i && i <= ((zc - 1) * xc + (xc - 1)) * yc + (yc - 1) && ((zc - 1) * xc + (xc - 1))
        * yc + (yc - 1) == xc * yc * zc - 1) by (nonlinear_arith)
        requires
            0 <= x < xc,
            0 <= y < yc,
            0 <= l < zc,
            i == (l * xc + x) * yc + y,
    ;
    lemma_fundamental_div_mod_converse(i, yc, l * xc + x, y);
    lemma_fundamental_div_mod_converse(l * xc + x, xc, l, x);
}

/// The grid: one state and one owning net per cell, indexed by
/// [`grid_index`].
#[derive(Debug)]
pub struct Raster {
    pub data: Vec<GridState>,
    pub owner: Vec<NetId>,
    pub x_cells: usize,
    pub y_cells: usize,
    pub layers: usize,
    pub spacing: Decimal,
}

impl Raster {
    /// The shape every raster keeps: storage sized to the three axes, and
    /// each axis small enough that index arithmetic never overflows.
    pub open spec fn wf(self) -> bool {
        &&& self.data@.len() == (self.x_cells as int) * (self.y_cells as int) * (
        self.layers as int)
        &&& self.owner@.len() == self.data@.len()
        &&& 1 <= self.x_cells <= 0xFFFFFFFF
        &&& 1 <= self.y_cells <= 0xFFFFFFFF
        &&& 1 <= self.layers <= 0xFFFFFFFF
        &&& 1 <= self.spacing.mantissa
        &&& self.spacing.scale <= MAX_SCALE
    }

    pub open spec fn in_bounds(self, p: Discrete3D) -> bool {
        p.x < self.x_cells && p.y < self.y_cells && p.layer < self.layers
    }

    pub open spec fn index_spec(self, p: Discrete3D) -> int {
        grid_index(self.x_cells as int, self.y_cells as int, p.x as int, p.y as int, p.layer as int)
    }

    /// The state of a cell.
    pub open spec fn cell(self, p: Discrete3D) -> GridState {
        self.data@[self.index_spec(p)]
    }

    /// The net owning a cell; meaningful only for occupied cells.
    pub open spec fn cell_owner(self, p: Discrete3D) -> int {
        self.owner@[self.index_spec(p)] as int
    }

    /// The flat index of a cell.
    pub fn index(&self, point: Discrete3D) -> (r: usize)
        requires
            self.wf(),
            self.in_bounds(point),
        ensures
            r == self.index_spec(point),
            r < self.data@.len(),
    {
        let n = self.data.len();
        proof {
            lemma_grid_index_bijection(
                self.x_cells as int,
                self.y_cells as int,
                self.layers as int,
                point.x as int,
                point.y as int,
                point.layer as int,
            );
            let i = self.index_spec(point);
            let xc = self.x_cells as int;
            let yc = self.y_cells as int;
            let x = point.x as int;
            let y = point.y as int;
            let l = point.layer as int;
            assert(l * xc <= i && l * xc + x <= i && (l * xc + x) * yc <= i) by (nonlinear_arith)
                requires
                    i == (l * xc + x) * yc + y,
                    0 <= x,
                    0 <= y,
                    0 <= l,
                    1 <= xc,
                    1 <= yc,
            ;
        }
        (point.layer * self.x_cells + point.x) * self.y_cells + point.y
    }

    pub fn get(&self, pos: Discrete3D) -> (r: GridState)
        requires
            self.wf(),
            self.in_bounds(pos),
        ensures
            r == self.cell(pos),
    {
        let i = self.index(pos);
        self.data[i]
    }

    pub fn get_owner(&self, pos: Discrete3D) -> (r: NetId)
        requires
            self.wf(),
            self.in_bounds(pos),
        ensures
            r as int == self.cell_owner(pos),
    {
        let i = self.index(pos);
        self.owner[i]
    }

    /// Writes one cell's state, leaving its owner as it was.
    pub fn set(&mut self, pos: Discrete3D, value: GridState)
        requires
            old(self).wf(),
            old(self).in_bounds(pos),
        ensures
            final(self).wf(),
            final(self).x_cells == old(self).x_cells,
            final(self).y_cells == old(self).y_cells,
            final(self).layers == old(self).layers,
            final(self).spacing == old(self).spacing,
            final(self).data@ == old(self).data@.update(old(self).index_spec(pos), value),
            final(self).owner@ == old(self).owner@,
    {
        let index = self.index(pos);
        self.data.set(index, value);
    }

    /// Writes one cell's state and owner together.
    pub fn set_owned(&mut self, pos: Discrete3D, value: GridState, net: NetId)
        requires
            old(self).wf(),
            old(self).in_bounds(pos),
        ensures
            final(self).wf(),
            final(self).x_cells == old(self).x_cells,
            final(self).y_cells == old(self).y_cells,
            final(self).layers == old(self).layers,
            final(self).spacing == old(self).spacing,
            final(self).data@ == old(self).data@.update(old(self).index_spec(pos), value),
            final(self).owner@ == old(self).owner@.update(old(self).index_spec(pos), net),
    {
        let index = self.index(pos);
        self.data.set(index, value);
        self.owner.set(index, net);
    }
}

// ---------------------------------------------------------------------------
// Continuous to discrete.
// ---------------------------------------------------------------------------

/// The cell ordinate of a continuous ordinate: `coordinate / spacing`
/// truncated toward zero, never negative.
pub open spec fn discrete_axis(a: Decimal, spacing: Decimal) -> int {
    if a.mantissa <= 0 {
        0
    } else {
        (a.mantissa * pow10(spacing.scale as nat)) / (spacing.mantissa * pow10(a.scale as nat))
    }
}

/// How many cells an extent spans: `extent / spacing` rounded up.
pub open spec fn cells_along(extent: Decimal, spacing: Decimal) -> int {
    let num = extent.mantissa * pow10(spacing.scale as nat);
    let den = spacing.mantissa * pow10(extent.scale as nat);
    (num + den - 1) / den
}

proof fn lemma_pow10_pos_le(k: nat)
    requires
        k <= MAX_SCALE,
    ensures
        1 <= pow10(k) <= 1000000000000000000,
{
    lemma_pow10_mono_local(0, k);
    lemma_pow10_mono_local(k, MAX_SCALE as nat);
    reveal_with_fuel(pow10, 20);
    assert(pow10(18) == 1000000000000000000);
}

proof fn lemma_pow10_mono_local(a: nat, b: nat)
    requires
        a <= b,
    ensures
        pow10(a) <= pow10(b),
    decreases b,
{
    if a < b {
        lemma_pow10_mono_local(a, (b - 1) as nat);
        assert(pow10(b) == 10 * pow10((b - 1) as nat));
    }
}

/// The cell ordinate of one continuous ordinate, or nothing where the
/// decimal's scale is too fine to align.
fn discrete_axis_exec(a: Decimal, spacing: Decimal) -> (r: Option<u128>)
    requires
        1 <= spacing.mantissa,
        spacing.scale <= MAX_SCALE,
    ensures
        (match r {
            Some(q) => a.scale <= MAX_SCALE && q == discrete_axis(a, spacing),
            None => a.scale > MAX_SCALE,
        }),
{
    if a.scale > MAX_SCALE {
        return None;
    }
    if a.mantissa <= 0 {
        return Some(0);
    }
    let ps = pow10_u64(spacing.scale);
    let pa = pow10_u64(a.scale);
    proof {
        lemma_pow10_pos_le(spacing.scale as nat);
        lemma_pow10_pos_le(a.scale as nat);
        let ma = a.mantissa as int;
        let ms = spacing.mantissa as int;
        let qs = ps as int;
        let qa = pa as int;
        assert(ma * qs <= 9223372036854775807 * 1000000000000000000 && 1 <= ms * qa
            <= 9223372036854775807 * 1000000000000000000) by (nonlinear_arith)
            requires
                1 <= ma <= 9223372036854775807,
                1 <= ms <= 9223372036854775807,
                1 <= qs <= 1000000000000000000,
                1 <= qa <= 1000000000000000000,
        ;
    }
    let num: u128 = (a.mantissa as u128) * (ps as u128);
    let den: u128 = (spacing.mantissa as u128) * (pa as u128);
    Some(num / den)
}

/// How many cells an extent spans, or nothing where the decimals cannot be
/// aligned or the extent is not positive.
fn cells_along_exec(extent: Decimal, spacing: Decimal) -> (r: Option<u128>)
    requires
        1 <= spacing.mantissa,
        spacing.scale <= MAX_SCALE,
    ensures
        (match r {
            Some(q) => extent.scale <= MAX_SCALE && 1 <= extent.mantissa && q == cells_along(
                extent,
                spacing,
            ),
            None => extent.scale > MAX_SCALE || extent.mantissa < 1,
        }),
{
    if extent.scale > MAX_SCALE || extent.mantissa <= 0 {
        return None;
    }
    let ps = pow10_u64(spacing.scale);
    let pe = pow10_u64(extent.scale);
    proof {
        lemma_pow10_pos_le(spacing.scale as nat);
        lemma_pow10_pos_le(extent.scale as nat);
        let me = extent.mantissa as int;
        let ms = spacing.mantissa as int;
        let qs = ps as int;
        let qe = pe as int;
        assert(1 <= me * qs <= 9223372036854775807 * 1000000000000000000 && 1 <= ms * qe
            <= 9223372036854775807 * 1000000000000000000) by (nonlinear_arith)
            requires
                1 <= me <= 9223372036854775807,
                1 <= ms <= 9223372036854775807,
                1 <= qs <= 1000000000000000000,
                1 <= qe <= 1000000000000000000,
        ;
    }
    let num: u128 = (extent.mantissa as u128) * (ps as u128);
    let den: u128 = (spacing.mantissa as u128) * (pe as u128);
    Some((num + den - 1) / den)
}

impl Raster {
    /// The cell a continuous position falls in on the given layer, or
    /// nothing where it lies off the grid or its decimals are too fine.
    pub open spec fn discrete_spec(self, at: (Decimal, Decimal), layer: int) -> Option<Discrete3D> {
        if at.0.scale > MAX_SCALE || at.1.scale > MAX_SCALE {
            None
        } else {
            let vx = discrete_axis(at.0, self.spacing);
            let vy = discrete_axis(at.1, self.spacing);
            if vx < self.x_cells && vy < self.y_cells && 0 <= layer < self.layers {
                Some(Discrete3D { x: vx as usize, y: vy as usize, layer: layer as usize })
            } else {
                None
            }
        }
    }

    /// Maps a continuous position into the grid; positions off the grid
    /// yield nothing.
    pub fn get_discrete(&self, at: &crate::router::V2, layer: usize) -> (r: Option<Discrete3D>)
        requires
            self.wf(),
        ensures
            r == self.discrete_spec((at[0], at[1]), layer as int),
            r matches Some(p) ==> self.in_bounds(p),
    {
        let vx = match discrete_axis_exec(at[0], self.spacing) {
            Some(q) => q,
            None => {
                return None;
            },
        };
        let vy = match discrete_axis_exec(at[1], self.spacing) {
            Some(q) => q,
            None => {
                return None;
            },
        };
        if vx < self.x_cells as u128 && vy < self.y_cells as u128 && layer < self.layers {
            Some(Discrete3D { x: vx as usize, y: vy as usize, layer: layer })
        } else {
            None
        }
    }
}

// ---------------------------------------------------------------------------
// Building the grid from a board.
// ---------------------------------------------------------------------------

/// The most cells a grid may hold.
pub const CELL_LIMIT: u128 = 50000000;

/// The layer every pad is stamped on.
pub const PAD_LAYER: usize = 0;

/// Whether a cell never holds a hand-placed route.
pub open spec fn not_user(st: GridState) -> bool {
    st != GridState::UserWire && st != GridState::UserVia
}

// ---------------------------------------------------------------------------
// The stamping model: what grid a board writes, cell by cell.
// ---------------------------------------------------------------------------

/// The shape-determining constants of a grid, as one ghost value.
pub struct GridDims {
    pub x_cells: int,
    pub y_cells: int,
    pub layers: int,
    pub spacing: Decimal,
}

/// The mutable content of a grid: states and owners, by flat index.
pub struct GridV {
    pub states: Seq<GridState>,
    pub owners: Seq<NetId>,
}

impl Raster {
    pub open spec fn dims(self) -> GridDims {
        GridDims {
            x_cells: self.x_cells as int,
            y_cells: self.y_cells as int,
            layers: self.layers as int,
            spacing: self.spacing,
        }
    }

    pub open spec fn grid(self) -> GridV {
        GridV { states: self.data@, owners: self.owner@ }
    }
}

/// The cell a continuous position falls in, over bare dimensions; the same
/// mapping as [`Raster::discrete_spec`].
pub open spec fn dims_discrete(d: GridDims, at: (Decimal, Decimal), layer: int) -> Option<
    Discrete3D,
> {
    if at.0.scale > MAX_SCALE || at.1.scale > MAX_SCALE {
        None
    } else {
        let vx = discrete_axis(at.0, d.spacing);
        let vy = discrete_axis(at.1, d.spacing);
        if vx < d.x_cells && vy < d.y_cells && 0 <= layer < d.layers {
            Some(Discrete3D { x: vx as usize, y: vy as usize, layer: layer as usize })
        } else {
            None
        }
    }
}

/// One obstacle stamped: the cell the position maps to takes the state and
/// the owning net; an off-grid position leaves the grid unchanged.
pub open spec fn stamp_at(
    d: GridDims,
    g: GridV,
    at: (Decimal, Decimal),
    layer: int,
    st: GridState,
    net: NetId,
) -> GridV {
    match dims_discrete(d, at, layer) {
        Some(c) => {
            let idx = grid_index(d.x_cells, d.y_cells, c.x as int, c.y as int, c.layer as int);
            GridV { states: g.states.update(idx, st), owners: g.owners.update(idx, net) }
        },
        None => g,
    }
}

/// The pads of one footprint stamped at their absolute positions on the
/// designated pad layer, from index `i` on.
pub open spec fn stamp_pads(d: GridDims, g: GridV, pads: Seq<PadV>, i: int) -> GridV
    decreases pads.len() - i,
{
    if i < 0 || i >= pads.len() {
        g
    } else {
        stamp_pads(
            d,
            stamp_at(
                d,
                g,
                pads[i].abs_at,
                PAD_LAYER as int,
                GridState::Pad,
                pads[i].net.id as usize,
            ),
            pads,
            i + 1,
        )
    }
}

/// Every footprint's pads stamped, in declaration order.
pub open spec fn stamp_footprints(d: GridDims, g: GridV, fps: Seq<FootprintV>, i: int) -> GridV
    decreases fps.len() - i,
{
    if i < 0 || i >= fps.len() {
        g
    } else {
        stamp_footprints(d, stamp_pads(d, g, fps[i].pads, 0), fps, i + 1)
    }
}

/// One via stamped on each signal layer it spans, from layer-name `i` on;
/// names that are no signal layer are skipped.
pub open spec fn stamp_via_span(d: GridDims, g: GridV, ls: Seq<LayerV>, v: ViaV, i: int) -> GridV
    decreases v.layers.len() - i,
{
    if i < 0 || i >= v.layers.len() {
        g
    } else {
        let g2 = match crate::router::signal_index_spec(ls, v.layers[i]) {
            Some(k) => stamp_at(d, g, v.at, k, GridState::Via, v.net_id as usize),
            None => g,
        };
        stamp_via_span(d, g2, ls, v, i + 1)
    }
}

pub open spec fn stamp_vias(d: GridDims, g: GridV, ls: Seq<LayerV>, vs: Seq<ViaV>, i: int) -> GridV
    decreases vs.len() - i,
{
    if i < 0 || i >= vs.len() {
        g
    } else {
        stamp_vias(d, stamp_via_span(d, g, ls, vs[i], 0), ls, vs, i + 1)
    }
}

/// How many steps the segment walk takes: the longer axis, in cells.
pub open spec fn seg_steps(a: Discrete3D, b: Discrete3D) -> int {
    let adx = if b.x >= a.x {
        b.x - a.x
    } else {
        a.x - b.x
    };
    let ady = if b.y >= a.y {
        b.y - a.y
    } else {
        a.y - b.y
    };
    if adx >= ady {
        adx
    } else {
        ady
    }
}

/// The planar cell the segment walk visits at step `i`: the start plus the
/// step's share of each axis's span, stepped toward the end; nothing where
/// an offset would leave the first quadrant.
pub open spec fn seg_cell(a: Discrete3D, b: Discrete3D, i: int) -> Option<(int, int)> {
    let adx = if b.x >= a.x {
        b.x - a.x
    } else {
        a.x - b.x
    };
    let ady = if b.y >= a.y {
        b.y - a.y
    } else {
        a.y - b.y
    };
    let steps = seg_steps(a, b);
    let offx = if steps == 0 {
        0int
    } else {
        (i * adx) / steps
    };
    let offy = if steps == 0 {
        0int
    } else {
        (i * ady) / steps
    };
    if b.x < a.x && offx > a.x {
        None
    } else if b.y < a.y && offy > a.y {
        None
    } else {
        let xi = if b.x >= a.x {
            a.x + offx
        } else {
            a.x - offx
        };
        let yi = if b.y >= a.y {
            a.y + offy
        } else {
            a.y - offy
        };
        Some((xi, yi))
    }
}

/// The segment walk's cells stamped as existing wire, from step `i` on;
/// cells off the grid are skipped.
pub open spec fn stamp_steps(
    d: GridDims,
    g: GridV,
    a: Discrete3D,
    b: Discrete3D,
    net: NetId,
    i: int,
) -> GridV
    decreases seg_steps(a, b) - i + 1,
{
    if i < 0 || i > seg_steps(a, b) {
        g
    } else {
        let g2 = match seg_cell(a, b, i) {
            Some(p) => {
                if p.0 < d.x_cells && p.1 < d.y_cells {
                    let idx = grid_index(d.x_cells, d.y_cells, p.0, p.1, a.layer as int);
                    GridV {
                        states: g.states.update(idx, GridState::Wire),
                        owners: g.owners.update(idx, net),
                    }
                } else {
                    g
                }
            },
            None => g,
        };
        stamp_steps(d, g2, a, b, net, i + 1)
    }
}

/// One wire segment stamped: both endpoints must map onto the given layer,
/// else nothing is written.
pub open spec fn stamp_seg(
    d: GridDims,
    g: GridV,
    start: (Decimal, Decimal),
    end: (Decimal, Decimal),
    layer: int,
    net: NetId,
) -> GridV {
    match (dims_discrete(d, start, layer), dims_discrete(d, end, layer)) {
        (Some(a), Some(b)) => stamp_steps(d, g, a, b, net, 0),
        _ => g,
    }
}

/// Every wire stamped along its rasterized path, on its signal layer, in
/// declaration order; wires on no signal layer are skipped.
pub open spec fn stamp_wires(d: GridDims, g: GridV, ls: Seq<LayerV>, ws: Seq<WireV>, i: int) -> GridV
    decreases ws.len() - i,
{
    if i < 0 || i >= ws.len() {
        g
    } else {
        let g2 = match crate::router::signal_index_spec(ls, ws[i].layer_name) {
            Some(k) => stamp_seg(d, g, ws[i].start, ws[i].end, k, ws[i].net_id as usize),
            None => g,
        };
        stamp_wires(d, g2, ls, ws, i + 1)
    }
}

/// A grid of `n` free, unowned cells.
pub open spec fn blank_grid(n: int) -> GridV {
    GridV {
        states: Seq::new(n as nat, |i: int| GridState::Free),
        owners: Seq::new(n as nat, |i: int| 0usize),
    }
}

/// The whole grid a board stamps: blank cells, then its pads, then its vias,
/// then its existing wires, in declaration order.
pub open spec fn stamped_grid(d: GridDims, board: crate::router::PcbV) -> GridV {
    let g0 = blank_grid(d.x_cells * d.y_cells * d.layers);
    let g1 = stamp_footprints(d, g0, board.footprints, 0);
    let g2 = stamp_vias(d, g1, board.layers, board.vias, 0);
    stamp_wires(d, g2, board.layers, board.wires, 0)
}

/// The settings a grid can be built for: a representable spacing and
/// extents, at least one cell per axis and one signal layer, each axis
/// small enough to index, and a total within the cell budget.
pub open spec fn grid_settings_ok(board: crate::router::PcbV, s: RouterSettings) -> bool {
    &&& 1 <= s.grid_spacing.mantissa
    &&& s.grid_spacing.scale <= MAX_SCALE
    &&& 1 <= s.board_width.mantissa && s.board_width.scale <= MAX_SCALE
    &&& 1 <= s.board_height.mantissa && s.board_height.scale <= MAX_SCALE
    &&& 1 <= cells_along(s.board_width, s.grid_spacing) <= 0xFFFFFFFF
    &&& 1 <= cells_along(s.board_height, s.grid_spacing) <= 0xFFFFFFFF
    &&& 1 <= crate::router::count_signal(board.layers) <= 0xFFFFFFFF
    &&& cells_along(s.board_width, s.grid_spacing) * cells_along(s.board_height, s.grid_spacing)
        * crate::router::count_signal(board.layers) <= CELL_LIMIT
}

impl Raster {
    /// Stamps one cell if the position maps into the grid; off-grid
    /// positions are skipped.
    fn stamp(&mut self, at: &crate::router::V2, layer: usize, st: GridState, net: NetId)
        requires
            old(self).wf(),
            !(st is UserWire),
            !(st is UserVia),
        ensures
            final(self).wf(),
            final(self).x_cells == old(self).x_cells,
            final(self).y_cells == old(self).y_cells,
            final(self).layers == old(self).layers,
            final(self).spacing == old(self).spacing,
            final(self).data@.len() == old(self).data@.len(),
            final(self).grid() == stamp_at(
                old(self).dims(),
                old(self).grid(),
                (at[0], at[1]),
                layer as int,
                st,
                net,
            ),
            forall|i: int| 0 <= i < final(self).data@.len() && final(self).data@[i] != old(
                self,
            ).data@[i] ==> final(self).data@[i] == st,
    {
        proof {
            assert(dims_discrete(self.dims(), (at[0], at[1]), layer as int) == self.discrete_spec(
                (at[0], at[1]),
                layer as int,
            ));
        }
        match self.get_discrete(at, layer) {
            Some(c) => {
                let ghost idx = self.index_spec(c);
                proof {
                    lemma_grid_index_bijection(
                        self.x_cells as int,
                        self.y_cells as int,
                        self.layers as int,
                        c.x as int,
                        c.y as int,
                        c.layer as int,
                    );
                }
                self.set_owned(c, st, net);
                proof {
                    assert(self.data@ == old(self).data@.update(idx, st));
                    assert(self.grid() == stamp_at(
                        old(self).dims(),
                        old(self).grid(),
                        (at[0], at[1]),
                        layer as int,
                        st,
                        net,
                    ));
                    assert forall|i: int|
                        0 <= i < self.data@.len() && self.data@[i] != old(self).data@[i] implies self.data@[i]
                        == st by {
                        assert(self.data@[i] == old(self).data@.update(idx, st)[i]);
                    }
                }
            },
            None => {},
        }
    }

    /// A fresh grid for the board under the given settings: extents divided
    /// by the spacing (rounded up) give the cells per axis, the signal layers
    /// give the layer axis, and every pad, via and existing wire of the board
    /// is stamped in as an obstacle, exactly as [`stamped_grid`] says.
    /// Settings the grid cannot honor are rejected outright, and only those.
    #[verifier::loop_isolation(false)]
    pub fn new(board_params: &KicadPcb, settings: &RouterSettings) -> (r: Result<
        Raster,
        crate::router::KicadPcbError,
    >)
        ensures
            r is Ok <==> grid_settings_ok(board_params@, *settings),
            (match r {
                Ok(ra) => {
                    &&& ra.wf()
                    &&& ra.spacing == settings.grid_spacing
                    &&& ra.x_cells as int == cells_along(
                        settings.board_width,
                        settings.grid_spacing,
                    )
                    &&& ra.y_cells as int == cells_along(
                        settings.board_height,
                        settings.grid_spacing,
                    )
                    &&& ra.layers as int == crate::router::count_signal(board_params@.layers)
                    &&& ra.grid() == stamped_grid(ra.dims(), board_params@)
                    &&& forall|i: int| 0 <= i < ra.data@.len() ==> not_user(#[trigger] ra.data@[i])
                },
                Err(e) => e is Other,
            }),
    {
        let spacing = settings.grid_spacing;
        if spacing.mantissa < 1 || spacing.scale > MAX_SCALE {
            return Err(crate::router::KicadPcbError::Other(String::from_str(
                "grid spacing rejected",
            )));
        }
        let x128 = match cells_along_exec(settings.board_width, spacing) {
            Some(q) => q,
            None => {
                return Err(crate::router::KicadPcbError::Other(String::from_str(
                    "board width rejected",
                )));
            },
        };
        let y128 = match cells_along_exec(settings.board_height, spacing) {
            Some(q) => q,
            None => {
                return Err(crate::router::KicadPcbError::Other(String::from_str(
                    "board height rejected",
                )));
            },
        };
        let z = board_params.routable_layers();
        if x128 < 1 || x128 > 0xFFFFFFFF || y128 < 1 || y128 > 0xFFFFFFFF || z < 1 || z
            > 0xFFFFFFFF {
            return Err(crate::router::KicadPcbError::Other(String::from_str(
                "grid extents rejected",
            )));
        }
        proof {
            assert(x128 * y128 <= 0xFFFFFFFF * 0xFFFFFFFFu128 && x128 * y128 * (z as u128)
                <= 0xFFFFFFFF * 0xFFFFFFFFu128 * 0xFFFFFFFF) by (nonlinear_arith)
                requires
                    1 <= x128 <= 0xFFFFFFFFu128,
                    1 <= y128 <= 0xFFFFFFFFu128,
                    1 <= (z as u128) <= 0xFFFFFFFFu128,
            ;
        }
        let total: u128 = x128 * y128 * (z as u128);
        if total > CELL_LIMIT {
            return Err(crate::router::KicadPcbError::Other(String::from_str(
                "grid too large",
            )));
        }
        let n: usize = total as usize;
        let mut data: Vec<GridState> = Vec::new();
        let mut owner: Vec<NetId> = Vec::new();
        let mut k: usize = 0;
        while k < n
            invariant
                k <= n,
                data@.len() == k,
                owner@.len() == k,
                forall|i: int| 0 <= i < k ==> #[trigger] data@[i] == GridState::Free,
                forall|i: int| 0 <= i < k ==> #[trigger] owner@[i] == 0usize,
            decreases n - k,
        {
            data.push(GridState::Free);
            owner.push(0);
            k += 1;
        }
        let mut raster = Raster {
            data: data,
            owner: owner,
            x_cells: x128 as usize,
            y_cells: y128 as usize,
            layers: z,
            spacing: spacing,
        };
        proof {
            assert(raster.data@.len() == (raster.x_cells as int) * (raster.y_cells as int) * (
            raster.layers as int)) by (nonlinear_arith)
                requires
                    raster.data@.len() == total,
                    total == x128 * y128 * (z as u128),
                    raster.x_cells == x128,
                    raster.y_cells == y128,
                    raster.layers == z,
                    x128 <= 0xFFFFFFFF,
                    y128 <= 0xFFFFFFFF,
                    z <= 0xFFFFFFFF,
            ;
        }
        let ghost d0 = raster.dims();
        let ghost g0 = raster.grid();
        let ghost board = board_params@;
        proof {
            assert(g0.states =~= blank_grid(d0.x_cells * d0.y_cells * d0.layers).states);
            assert(g0.owners =~= blank_grid(d0.x_cells * d0.y_cells * d0.layers).owners);
            assert(g0 == blank_grid(d0.x_cells * d0.y_cells * d0.layers));
        }
        // Pads: each at its absolute position, on the designated pad layer.
        let mut fi: usize = 0;
        while fi < board_params.footprints.len()
            invariant
                fi <= board_params.footprints@.len(),
                raster.wf(),
                raster.dims() == d0,
                stamp_footprints(d0, g0, board.footprints, 0) == stamp_footprints(
                    d0,
                    raster.grid(),
                    board.footprints,
                    fi as int,
                ),
                forall|i: int| 0 <= i < raster.data@.len() ==> not_user(#[trigger] raster.data@[i]),
            decreases board_params.footprints@.len() - fi,
        {
            let fp = &board_params.footprints[fi];
            let ghost padsv = board.footprints[fi as int].pads;
            let ghost gouter = raster.grid();
            proof {
                assert(board.footprints[fi as int] == board_params.footprints@[fi as int]@);
                assert(padsv == crate::router::view_pads(fp.pads@));
            }
            let mut pi: usize = 0;
            while pi < fp.pads.len()
                invariant
                    pi <= fp.pads@.len(),
                    raster.wf(),
                    raster.dims() == d0,
                    padsv.len() == fp.pads@.len(),
                    stamp_pads(d0, gouter, padsv, 0) == stamp_pads(
                        d0,
                        raster.grid(),
                        padsv,
                        pi as int,
                    ),
                    forall|i: int| 0 <= i < raster.data@.len() ==> not_user(
                        #[trigger] raster.data@[i],
                    ),
                decreases fp.pads@.len() - pi,
            {
                let pad = &fp.pads[pi];
                proof {
                    assert(padsv[pi as int] == fp.pads@[pi as int]@);
                    assert(padsv[pi as int].abs_at == (pad.abs_at[0], pad.abs_at[1]));
                    assert(padsv[pi as int].net.id as usize == pad.net.id);
                }
                raster.stamp(&pad.abs_at, PAD_LAYER, GridState::Pad, pad.net.id);
                pi += 1;
            }
            proof {
                assert(stamp_pads(d0, raster.grid(), padsv, fp.pads@.len() as int)
                    == raster.grid());
                assert(stamp_footprints(d0, raster.grid(), board.footprints, fi + 1)
                    == stamp_footprints(d0, gouter, board.footprints, fi as int)) by {
                    assert(stamp_pads(d0, gouter, board.footprints[fi as int].pads, 0)
                        == raster.grid());
                }
            }
            fi += 1;
        }
        let ghost g1 = raster.grid();
        proof {
            assert(stamp_footprints(
                d0,
                raster.grid(),
                board.footprints,
                board.footprints.len() as int,
            ) == raster.grid());
            assert(g1 == stamp_footprints(d0, g0, board.footprints, 0));
        }
        // Vias: on each signal layer they span.
        let mut vi: usize = 0;
        while vi < board_params.vias.len()
            invariant
                vi <= board_params.vias@.len(),
                raster.wf(),
                raster.dims() == d0,
                stamp_vias(d0, g1, board.layers, board.vias, 0) == stamp_vias(
                    d0,
                    raster.grid(),
                    board.layers,
                    board.vias,
                    vi as int,
                ),
                forall|i: int| 0 <= i < raster.data@.len() ==> not_user(#[trigger] raster.data@[i]),
            decreases board_params.vias@.len() - vi,
        {
            let via_item = &board_params.vias[vi];
            let ghost viav = board.vias[vi as int];
            let ghost gouter = raster.grid();
            proof {
                assert(viav == board_params.vias@[vi as int]@);
            }
            let mut li: usize = 0;
            while li < via_item.layers.len()
                invariant
                    li <= via_item.layers@.len(),
                    raster.wf(),
                    raster.dims() == d0,
                    viav.layers.len() == via_item.layers@.len(),
                    viav == board_params.vias@[vi as int]@,
                    stamp_via_span(d0, gouter, board.layers, viav, 0) == stamp_via_span(
                        d0,
                        raster.grid(),
                        board.layers,
                        viav,
                        li as int,
                    ),
                    forall|i: int| 0 <= i < raster.data@.len() ==> not_user(
                        #[trigger] raster.data@[i],
                    ),
                decreases via_item.layers@.len() - li,
            {
                proof {
                    assert(viav.layers[li as int] == via_item.layers@[li as int]@) by {
                        assert(viav.layers == crate::router::view_strs(via_item.layers@));
                        assert(crate::router::view_strs(via_item.layers@)[li as int]
                            == via_item.layers@[li as int]@);
                    }
                    assert(viav.at == (via_item.at[0], via_item.at[1]));
                    assert(viav.net_id as usize == via_item.net_id);
                }
                match board_params.signal_index(via_item.layers[li].as_str()) {
                    Some(idx) => {
                        raster.stamp(&via_item.at, idx, GridState::Via, via_item.net_id);
                    },
                    None => {},
                }
                li += 1;
            }
            proof {
                assert(stamp_via_span(
                    d0,
                    raster.grid(),
                    board.layers,
                    viav,
                    viav.layers.len() as int,
                ) == raster.grid());
                assert(stamp_vias(d0, raster.grid(), board.layers, board.vias, vi + 1)
                    == stamp_vias(d0, gouter, board.layers, board.vias, vi as int)) by {
                    assert(stamp_via_span(d0, gouter, board.layers, board.vias[vi as int], 0)
                        == raster.grid());
                }
            }
            vi += 1;
        }
        let ghost g2 = raster.grid();
        proof {
            assert(stamp_vias(d0, raster.grid(), board.layers, board.vias, board.vias.len() as int)
                == raster.grid());
            assert(g2 == stamp_vias(d0, g1, board.layers, board.vias, 0));
        }
        // Wires: every cell along the segment, stepped on the longer axis.
        let mut wi: usize = 0;
        while wi < board_params.wires.len()
            invariant
                wi <= board_params.wires@.len(),
                raster.wf(),
                raster.dims() == d0,
                stamp_wires(d0, g2, board.layers, board.wires, 0) == stamp_wires(
                    d0,
                    raster.grid(),
                    board.layers,
                    board.wires,
                    wi as int,
                ),
                forall|i: int| 0 <= i < raster.data@.len() ==> not_user(#[trigger] raster.data@[i]),
            decreases board_params.wires@.len() - wi,
        {
            let wire = &board_params.wires[wi];
            let ghost wirev = board.wires[wi as int];
            let ghost gouter = raster.grid();
            proof {
                assert(wirev == board_params.wires@[wi as int]@);
                assert(wirev.start == (wire.start[0], wire.start[1]));
                assert(wirev.end == (wire.end[0], wire.end[1]));
                assert(wirev.net_id as usize == wire.net_id);
            }
            match board_params.signal_index(wire.layer_name.as_str()) {
                Some(idx) => {
                    raster.stamp_segment(&wire.start, &wire.end, idx, wire.net_id);
                },
                None => {},
            }
            proof {
                assert(stamp_wires(d0, raster.grid(), board.layers, board.wires, wi + 1)
                    == stamp_wires(d0, gouter, board.layers, board.wires, wi as int));
            }
            wi += 1;
        }
        proof {
            assert(stamp_wires(
                d0,
                raster.grid(),
                board.layers,
                board.wires,
                board.wires.len() as int,
            ) == raster.grid());
            assert(raster.grid() == stamped_grid(raster.dims(), board));
        }
        Ok(raster)
    }

    /// Stamps every cell along a segment as an existing wire, walking the
    /// longer axis one cell at a time; cells off the grid are skipped —
    /// exactly as [`stamp_seg`] says.
    #[verifier::loop_isolation(false)]
    #[verifier::rlimit(100)]
    fn stamp_segment(
        &mut self,
        start: &crate::router::V2,
        end: &crate::router::V2,
        layer: usize,
        net: NetId,
    )
        requires
            old(self).wf(),
        ensures
            final(self).wf(),
            final(self).x_cells == old(self).x_cells,
            final(self).y_cells == old(self).y_cells,
            final(self).layers == old(self).layers,
            final(self).spacing == old(self).spacing,
            final(self).data@.len() == old(self).data@.len(),
            final(self).grid() == stamp_seg(
                old(self).dims(),
                old(self).grid(),
                (start[0], start[1]),
                (end[0], end[1]),
                layer as int,
                net,
            ),
            forall|i: int| 0 <= i < final(self).data@.len() && final(self).data@[i] != old(
                self,
            ).data@[i] ==> final(self).data@[i] == GridState::Wire,
    {
        proof {
            assert(dims_discrete(self.dims(), (start[0], start[1]), layer as int)
                == self.discrete_spec((start[0], start[1]), layer as int));
            assert(dims_discrete(self.dims(), (end[0], end[1]), layer as int) == self.discrete_spec(
                (end[0], end[1]),
                layer as int,
            ));
        }
        let a = match self.get_discrete(start, layer) {
            Some(c) => c,
            None => {
                return ;
            },
        };
        let b = match self.get_discrete(end, layer) {
            Some(c) => c,
            None => {
                return ;
            },
        };
        let adx: u64 = if b.x >= a.x {
            (b.x - a.x) as u64
        } else {
            (a.x - b.x) as u64
        };
        let ady: u64 = if b.y >= a.y {
            (b.y - a.y) as u64
        } else {
            (a.y - b.y) as u64
        };
        let steps: u64 = if adx >= ady {
            adx
        } else {
            ady
        };
        let ghost snap = *self;
        let ghost d0 = snap.dims();
        proof {
            assert(steps as int == seg_steps(a, b));
        }
        let mut i: u64 = 0;
        while i <= steps
            invariant
                self.wf(),
                self.dims() == d0,
                self.data@.len() == snap.data@.len(),
                i <= steps + 1,
                adx <= 0xFFFFFFFF,
                ady <= 0xFFFFFFFF,
                steps <= 0xFFFFFFFF,
                steps as int == seg_steps(a, b),
                a.x < snap.x_cells <= 0xFFFFFFFF,
                a.y < snap.y_cells <= 0xFFFFFFFF,
                a.layer < snap.layers,
                stamp_steps(d0, snap.grid(), a, b, net, 0) == stamp_steps(
                    d0,
                    self.grid(),
                    a,
                    b,
                    net,
                    i as int,
                ),
                forall|k: int| 0 <= k < self.data@.len() && self.data@[k] != snap.data@[k]
                    ==> self.data@[k] == GridState::Wire,
            decreases steps - i + 1,
        {
            let ghost gcur = self.grid();
            let (offx, offy): (u64, u64) = if steps == 0 {
                (0, 0)
            } else {
                proof {
                    assert(i * adx <= 0xFFFFFFFF * 0xFFFFFFFFu64 && i * ady <= 0xFFFFFFFF
                        * 0xFFFFFFFFu64) by (nonlinear_arith)
                        requires
                            i <= 0xFFFFFFFFu64,
                            adx <= 0xFFFFFFFFu64,
                            ady <= 0xFFFFFFFFu64,
                    ;
                }
                ((i * adx) / steps, (i * ady) / steps)
            };
            let xi: u64 = if b.x >= a.x {
                a.x as u64 + offx
            } else {
                if offx > a.x as u64 {
                    proof {
                        assert(seg_cell(a, b, i as int) is None);
                        assert(stamp_steps(d0, gcur, a, b, net, i as int) == stamp_steps(
                            d0,
                            gcur,
                            a,
                            b,
                            net,
                            i + 1,
                        ));
                    }
                    i += 1;
                    continue ;
                }
                a.x as u64 - offx
            };
            let yi: u64 = if b.y >= a.y {
                a.y as u64 + offy
            } else {
                if offy > a.y as u64 {
                    proof {
                        assert(seg_cell(a, b, i as int) is None);
                        assert(stamp_steps(d0, gcur, a, b, net, i as int) == stamp_steps(
                            d0,
                            gcur,
                            a,
                            b,
                            net,
                            i + 1,
                        ));
                    }
                    i += 1;
                    continue ;
                }
                a.y as u64 - offy
            };
            proof {
                assert(seg_cell(a, b, i as int) == Some((xi as int, yi as int)));
            }
            if xi < self.x_cells as u64 && yi < self.y_cells as u64 {
                let c = Discrete3D { x: xi as usize, y: yi as usize, layer: a.layer };
                let ghost prev = *self;
                let ghost idx = self.index_spec(c);
                proof {
                    lemma_grid_index_bijection(
                        self.x_cells as int,
                        self.y_cells as int,
                        self.layers as int,
                        c.x as int,
                        c.y as int,
                        c.layer as int,
                    );
                }
                self.set_owned(c, GridState::Wire, net);
                proof {
                    assert(self.data@ == prev.data@.update(idx, GridState::Wire));
                    assert(self.owner@ == prev.owner@.update(idx, net));
                    assert(stamp_steps(d0, gcur, a, b, net, i as int) == stamp_steps(
                        d0,
                        self.grid(),
                        a,
                        b,
                        net,
                        i + 1,
                    ));
                    assert forall|k: int|
                        0 <= k < self.data@.len() && self.data@[k] != snap.data@[k] implies self.data@[k]
                        == GridState::Wire by {
                        assert(self.data@[k] == prev.data@.update(idx, GridState::Wire)[k]);
                        if k != idx {
                            assert(self.data@[k] == prev.data@[k]);
                        }
                    }
                }
            } else {
                proof {
                    assert(stamp_steps(d0, gcur, a, b, net, i as int) == stamp_steps(
                        d0,
                        gcur,
                        a,
                        b,
                        net,
                        i + 1,
                    ));
                }
            }
            i += 1;
        }
        proof {
            assert(stamp_steps(d0, self.grid(), a, b, net, i as int) == self.grid());
        }
    }
}

// ---------------------------------------------------------------------------
// Wavefront search.
// ---------------------------------------------------------------------------

/// Committing never frees a cell and never changes an occupied one.
pub proof fn lemma_commit_frame(d: GridDims, g: GridV, path: Seq<Discrete3D>, k: int, net: NetId)
    requires
        g.owners.len() == g.states.len(),
    ensures
        commit_from(d, g, path, k, net).states.len() == g.states.len(),
        commit_from(d, g, path, k, net).owners.len() == g.owners.len(),
        forall|i: int| 0 <= i < g.states.len() && g.states[i] != GridState::Free ==> commit_from(
            d,
            g,
            path,
            k,
            net,
        ).states[i] == g.states[i] && commit_from(d, g, path, k, net).owners[i] == g.owners[i],
        forall|i: int| 0 <= i < g.states.len() && commit_from(d, g, path, k, net).states[i]
            != g.states[i] ==> (commit_from(d, g, path, k, net).states[i] == GridState::Wire
            || commit_from(d, g, path, k, net).states[i] == GridState::Via) && commit_from(
            d,
            g,
            path,
            k,
            net,
        ).owners[i] == net,
    decreases path.len() - k,
{
    if 0 <= k < path.len() {
        let g2 = commit_cell(d, g, path, k, net);
        let res = commit_from(d, g, path, k, net);
        lemma_commit_frame(d, g2, path, k + 1, net);
        assert forall|i: int|
            0 <= i < g.states.len() && g.states[i] != GridState::Free implies res.states[i]
            == g.states[i] && res.owners[i] == g.owners[i] by {
            assert(g2.states[i] == g.states[i]);
            assert(g2.owners[i] == g.owners[i]);
        }
        assert forall|i: int|
            0 <= i < g.states.len() && res.states[i] != g.states[i] implies (res.states[i]
            == GridState::Wire || res.states[i] == GridState::Via) && res.owners[i] == net by {
            if g2.states[i] == g.states[i] && g2.owners[i] == g.owners[i] {
                assert(res.states[i] != g2.states[i]);
            } else {
                // this is the cell committed at step k
                if res.states[i] == g2.states[i] && res.owners[i] == g2.owners[i] {
                } else {
                    assert(g2.states[i] != GridState::Free);
                }
            }
        }
    }
}

/// After a commit, every cell of the committed stretch is occupied.
pub proof fn lemma_commit_covers(d: GridDims, g: GridV, path: Seq<Discrete3D>, k: int, net: NetId)
    requires
        0 <= k,
        g.owners.len() == g.states.len(),
    ensures
        forall|j: int|
            k <= j < path.len() && 0 <= grid_index(
                d.x_cells,
                d.y_cells,
                (#[trigger] path[j]).x as int,
                path[j].y as int,
                path[j].layer as int,
            ) < g.states.len() ==> commit_from(d, g, path, k, net).states[grid_index(
                d.x_cells,
                d.y_cells,
                path[j].x as int,
                path[j].y as int,
                path[j].layer as int,
            )] != GridState::Free,
    decreases path.len() - k,
{
    if 0 <= k < path.len() {
        let g2 = commit_cell(d, g, path, k, net);
        let res = commit_from(d, g, path, k, net);
        lemma_commit_covers(d, g2, path, k + 1, net);
        lemma_commit_frame(d, g2, path, k + 1, net);
        assert(g2.states.len() == g.states.len());
        assert forall|j: int|
            k <= j < path.len() && 0 <= grid_index(
                d.x_cells,
                d.y_cells,
                (#[trigger] path[j]).x as int,
                path[j].y as int,
                path[j].layer as int,
            ) < g.states.len() implies res.states[grid_index(
            d.x_cells,
            d.y_cells,
            path[j].x as int,
            path[j].y as int,
            path[j].layer as int,
        )] != GridState::Free by {
            let idxj = grid_index(
                d.x_cells,
                d.y_cells,
                path[j].x as int,
                path[j].y as int,
                path[j].layer as int,
            );
            if j == k {
                assert(g2.states[idxj] != GridState::Free);
                assert(res.states[idxj] == g2.states[idxj] || res.states[idxj]
                    != g2.states[idxj]);
                if res.states[idxj] != g2.states[idxj] {
                    assert(res.states[idxj] == GridState::Wire || res.states[idxj]
                        == GridState::Via);
                }
            } else {
                assert(res.states[idxj] != GridState::Free);
            }
        }
    }
}

/// Two cells the wavefront may step between: one planar step on the same
/// layer, or a layer change at the same position.
pub open spec fn adjacent(p: Discrete3D, q: Discrete3D) -> bool {
    ||| (p.layer == q.layer && ((p.x == q.x && (p.y + 1 == q.y || q.y + 1 == p.y)) || (p.y == q.y
        && (p.x + 1 == q.x || q.x + 1 == p.x))))
    ||| (p.x == q.x && p.y == q.y && (p.layer + 1 == q.layer || q.layer + 1 == p.layer))
}

/// Whether the wavefront of `net` may occupy a cell: a free cell, or one of
/// the net's own pads or routes. Hand-placed routes and anything of another
/// net block.
pub open spec fn passable(st: GridState, owner: int, net: int) -> bool {
    st is Free || (owner == net && (st is Pad || st is Wire || st is Via))
}

proof fn lemma_grid_index_inv(xc: int, yc: int, zc: int, i: int)
    requires
        1 <= xc,
        1 <= yc,
        1 <= zc,
        0 <= i < xc * yc * zc,
    ensures
        ({
            let (x, y, l) = grid_index_inv(xc, yc, i);
            &&& 0 <= x < xc
            &&& 0 <= y < yc
            &&& 0 <= l < zc
            &&& grid_index(xc, yc, x, y, l) == i
        }),
{
    let y = i % yc;
    let t = i / yc;
    vstd::arithmetic::div_mod::lemma_fundamental_div_mod(i, yc);
    vstd::arithmetic::div_mod::lemma_mod_bound(i, yc);
    vstd::arithmetic::div_mod::lemma_div_pos_is_pos(i, yc);
    assert(t < xc * zc) by (nonlinear_arith)
        requires
            i == yc * t + y,
            0 <= y < yc,
            0 <= t,
            1 <= yc,
            i < xc * yc * zc,
    ;
    let x = t % xc;
    let l = t / xc;
    vstd::arithmetic::div_mod::lemma_fundamental_div_mod(t, xc);
    vstd::arithmetic::div_mod::lemma_mod_bound(t, xc);
    vstd::arithmetic::div_mod::lemma_div_pos_is_pos(t, xc);
    assert(l < zc) by (nonlinear_arith)
        requires
            t == xc * l + x,
            0 <= x < xc,
            0 <= l,
            1 <= xc,
            t < xc * zc,
    ;
    assert((l * xc + x) * yc + y == i) by (nonlinear_arith)
        requires
            i == yc * t + y,
            t == xc * l + x,
    ;
}

/// One committed cell of a path: a free cell becomes wire — or via where
/// the path changes layer at it — owned by the net; an occupied cell stays
/// exactly as it was.
pub open spec fn commit_cell(
    d: GridDims,
    g: GridV,
    path: Seq<Discrete3D>,
    k: int,
    net: NetId,
) -> GridV {
    let c = path[k];
    let idx = grid_index(d.x_cells, d.y_cells, c.x as int, c.y as int, c.layer as int);
    if 0 <= idx < g.states.len() && idx < g.owners.len() && g.states[idx] == GridState::Free {
        let is_via = (k > 0 && path[k - 1].layer != c.layer) || (k + 1 < path.len() && path[k
            + 1].layer != c.layer);
        let st = if is_via {
            GridState::Via
        } else {
            GridState::Wire
        };
        GridV { states: g.states.update(idx, st), owners: g.owners.update(idx, net) }
    } else {
        g
    }
}

/// A whole path committed, cell by cell from index `k` on.
pub open spec fn commit_from(
    d: GridDims,
    g: GridV,
    path: Seq<Discrete3D>,
    k: int,
    net: NetId,
) -> GridV
    decreases path.len() - k,
{
    if k < 0 || k >= path.len() {
        g
    } else {
        commit_from(d, commit_cell(d, g, path, k, net), path, k + 1, net)
    }
}

impl Raster {
    /// A path the search may hand back: it starts at the source, ends at the
    /// target, moves cell by cell, and stands only on cells the net may
    /// occupy.
    pub open spec fn path_ok(
        self,
        path: Seq<Discrete3D>,
        src: Discrete3D,
        dst: Discrete3D,
        net: int,
    ) -> bool {
        &&& path.len() >= 1
        &&& path[0] == src
        &&& path.last() == dst
        &&& forall|i: int| 0 <= i < path.len() ==> self.in_bounds(#[trigger] path[i]) && passable(
            self.cell(path[i]),
            self.cell_owner(path[i]),
            net,
        )
        &&& forall|i: int| 0 <= i < path.len() - 1 ==> adjacent(#[trigger] path[i], path[i + 1])
    }

    #[verifier::loop_isolation(false)]
    #[verifier::rlimit(60)]
    fn validate_path(
        &self,
        path: &Vec<Discrete3D>,
        src: Discrete3D,
        dst: Discrete3D,
        net: NetId,
    ) -> (r: bool)
        requires
            self.wf(),
        ensures
            r == self.path_ok(path@, src, dst, net as int),
    {
        if path.len() == 0 {
            return false;
        }
        if !(path[0] == src) {
            return false;
        }
        if !(path[path.len() - 1] == dst) {
            return false;
        }
        let mut i: usize = 0;
        while i < path.len()
            invariant
                i <= path@.len(),
                forall|j: int| 0 <= j < i ==> self.in_bounds(#[trigger] path@[j]) && passable(
                    self.cell(path@[j]),
                    self.cell_owner(path@[j]),
                    net as int,
                ),
            decreases path@.len() - i,
        {
            let p = path[i];
            if !(p.x < self.x_cells && p.y < self.y_cells && p.layer < self.layers) {
                return false;
            }
            let st = self.get(p);
            let ow = self.get_owner(p);
            let pass = match st {
                GridState::Free => true,
                GridState::Pad => ow == net,
                GridState::Wire => ow == net,
                GridState::Via => ow == net,
                GridState::UserWire => false,
                GridState::UserVia => false,
            };
            if !pass {
                return false;
            }
            i += 1;
        }
        let mut k: usize = 1;
        while k < path.len()
            invariant
                1 <= k <= path@.len() || path@.len() < 1,
                forall|j: int| 0 <= j < k - 1 ==> adjacent(#[trigger] path@[j], path@[j + 1]),
            decreases path@.len() - k,
        {
            let p = path[k - 1];
            let q = path[k];
            let planar = p.layer == q.layer && ((p.x == q.x && (p.y + 1 == q.y || q.y + 1 == p.y))
                || (p.y == q.y && (p.x + 1 == q.x || q.x + 1 == p.x)));
            let lift = p.x == q.x && p.y == q.y && (p.layer + 1 == q.layer || q.layer + 1
                == p.layer);
            if !(planar || lift) {
                return false;
            }
            k += 1;
        }
        true
    }

    /// The cell a flat index names.
    fn cell_of_index(&self, i: usize) -> (r: Discrete3D)
        requires
            self.wf(),
            i < self.data@.len(),
        ensures
            self.in_bounds(r),
            self.index_spec(r) == i,
    {
        proof {
            lemma_grid_index_inv(
                self.x_cells as int,
                self.y_cells as int,
                self.layers as int,
                i as int,
            );
        }
        let y = i % self.y_cells;
        let t = i / self.y_cells;
        let x = t % self.x_cells;
        let l = t / self.x_cells;
        Discrete3D { x: x, y: y, layer: l }
    }

    /// Breadth-first wavefront expansion from `src` toward `dst` for `net`:
    /// planar steps cost one, layer changes cost the via penalty. Any path
    /// handed back starts at the source, ends at the target, moves cell by
    /// cell and stands only on cells the net may occupy; exhaustion of the
    /// frontier yields nothing.
    pub fn search(
        &self,
        src: Discrete3D,
        dst: Discrete3D,
        net: NetId,
        via_penalty: u64,
    ) -> (r: Option<Vec<Discrete3D>>)
        requires
            self.wf(),
            self.in_bounds(src),
            self.in_bounds(dst),
            via_penalty >= 1,
        ensures
            r matches Some(path) ==> self.path_ok(path@, src, dst, net as int),
    {
        let n = self.data.len();
        let src_i = self.index(src);
        let dst_i = self.index(dst);
        let mut dist: Vec<u64> = Vec::new();
        let mut visited: Vec<bool> = Vec::new();
        let mut pred: Vec<usize> = Vec::new();
        let mut k: usize = 0;
        while k < n
            invariant
                k <= n,
                dist@.len() == k,
                visited@.len() == k,
                pred@.len() == k,
                forall|j: int| 0 <= j < k ==> #[trigger] pred@[j] < n,
            decreases n - k,
        {
            dist.push(u64::MAX);
            visited.push(false);
            pred.push(k);
            k += 1;
        }
        dist.set(src_i, 0);
        let mut rounds: usize = 0;
        while rounds < n
            invariant
                self.wf(),
                n == self.data@.len(),
                src_i < n,
                dst_i < n,
                dist@.len() == n,
                visited@.len() == n,
                pred@.len() == n,
                forall|j: int| 0 <= j < n ==> #[trigger] pred@[j] < n,
            decreases n - rounds,
        {
            let mut best: usize = n;
            let mut bestd: u64 = u64::MAX;
            let mut j: usize = 0;
            while j < n
                invariant
                    j <= n,
                    dist@.len() == n,
                    visited@.len() == n,
                    best <= n,
                decreases n - j,
            {
                if !visited[j] && dist[j] < bestd {
                    best = j;
                    bestd = dist[j];
                }
                j += 1;
            }
            if best == n {
                break ;
            }
            visited.set(best, true);
            if best == dst_i {
                break ;
            }
            let c = self.cell_of_index(best);
            // The six neighbors: four planar, two across layers.
            let mut cand: Vec<(Discrete3D, u64)> = Vec::new();
            if c.x + 1 < self.x_cells {
                cand.push((Discrete3D { x: c.x + 1, y: c.y, layer: c.layer }, 1));
            }
            if c.x > 0 {
                cand.push((Discrete3D { x: c.x - 1, y: c.y, layer: c.layer }, 1));
            }
            if c.y + 1 < self.y_cells {
                cand.push((Discrete3D { x: c.x, y: c.y + 1, layer: c.layer }, 1));
            }
            if c.y > 0 {
                cand.push((Discrete3D { x: c.x, y: c.y - 1, layer: c.layer }, 1));
            }
            if c.layer + 1 < self.layers {
                cand.push((Discrete3D { x: c.x, y: c.y, layer: c.layer + 1 }, via_penalty));
            }
            if c.layer > 0 {
                cand.push((Discrete3D { x: c.x, y: c.y, layer: c.layer - 1 }, via_penalty));
            }
            let mut ci: usize = 0;
            while ci < cand.len()
                invariant
                    ci <= cand@.len(),
                    self.wf(),
                    n == self.data@.len(),
                    dist@.len() == n,
                    visited@.len() == n,
                    pred@.len() == n,
                    best < n,
                    forall|j2: int| 0 <= j2 < n ==> #[trigger] pred@[j2] < n,
                    forall|j2: int| 0 <= j2 < cand@.len() ==> self.in_bounds(
                        #[trigger] cand@[j2].0,
                    ),
                decreases cand@.len() - ci,
            {
                let (q, cost) = cand[ci];
                let qi = self.index(q);
                let st = self.get(q);
                let ow = self.get_owner(q);
                let pass = match st {
                    GridState::Free => true,
                    GridState::Pad => ow == net,
                    GridState::Wire => ow == net,
                    GridState::Via => ow == net,
                    GridState::UserWire => false,
                    GridState::UserVia => false,
                };
                if pass && !visited[qi] {
                    match bestd.checked_add(cost) {
                        Some(nd) => {
                            if nd < dist[qi] {
                                dist.set(qi, nd);
                                pred.set(qi, best);
                            }
                        },
                        None => {},
                    }
                }
                ci += 1;
            }
            rounds += 1;
        }
        if dist[dst_i] == u64::MAX && !(src_i == dst_i) {
            return None;
        }
        if !visited[dst_i] {
            return None;
        }
        // Backtrace from the target along predecessors.
        let mut rev: Vec<Discrete3D> = Vec::new();
        let mut cur: usize = dst_i;
        let mut hops: usize = 0;
        while hops <= n
            invariant
                cur < n,
                hops <= n,
                n == self.data@.len(),
                pred@.len() == n,
                forall|j: int| 0 <= j < n ==> #[trigger] pred@[j] < n,
                self.wf(),
            decreases n - hops + 1,
        {
            rev.push(self.cell_of_index(cur));
            if cur == src_i {
                break ;
            }
            if hops == n {
                return None;
            }
            cur = pred[cur];
            hops += 1;
        }
        if !(cur == src_i) {
            return None;
        }
        let mut path: Vec<Discrete3D> = Vec::new();
        let mut b: usize = rev.len();
        while b > 0
            invariant
                b <= rev@.len(),
            decreases b,
        {
            path.push(rev[b - 1]);
            b -= 1;
        }
        if self.validate_path(&path, src, dst, net) {
            Some(path)
        } else {
            None
        }
    }

    /// Writes a found path into the grid for `net`, exactly as
    /// [`commit_from`] says: each free cell of the path becomes a wire, or a
    /// via where the path changes layer there, owned by the net. Cells
    /// already occupied — the net's own pads among them — are left exactly
    /// as they were, so a hand-placed route is never overwritten.
    #[verifier::loop_isolation(false)]
    pub fn commit_path(&mut self, path: &Vec<Discrete3D>, net: NetId)
        requires
            old(self).wf(),
            forall|i: int| 0 <= i < path@.len() ==> old(self).in_bounds(#[trigger] path@[i]),
        ensures
            final(self).wf(),
            final(self).x_cells == old(self).x_cells,
            final(self).y_cells == old(self).y_cells,
            final(self).layers == old(self).layers,
            final(self).spacing == old(self).spacing,
            final(self).data@.len() == old(self).data@.len(),
            final(self).grid() == commit_from(
                old(self).dims(),
                old(self).grid(),
                path@,
                0,
                net,
            ),
            forall|i: int| 0 <= i < old(self).data@.len() && old(self).data@[i] != GridState::Free
                ==> final(self).data@[i] == old(self).data@[i] && final(self).owner@[i] == old(
                self,
            ).owner@[i],
            forall|i: int| 0 <= i < old(self).data@.len() && final(self).data@[i] != old(
                self,
            ).data@[i] ==> (final(self).data@[i] == GridState::Wire || final(self).data@[i]
                == GridState::Via) && final(self).owner@[i] == net,
    {
        let ghost d0 = old(self).dims();
        let mut k: usize = 0;
        while k < path.len()
            invariant
                k <= path@.len(),
                self.wf(),
                self.x_cells == old(self).x_cells,
                self.y_cells == old(self).y_cells,
                self.layers == old(self).layers,
                self.spacing == old(self).spacing,
                self.data@.len() == old(self).data@.len(),
                self.dims() == d0,
                commit_from(d0, old(self).grid(), path@, 0, net) == commit_from(
                    d0,
                    self.grid(),
                    path@,
                    k as int,
                    net,
                ),
                forall|i: int| 0 <= i < old(self).data@.len() && old(self).data@[i]
                    != GridState::Free ==> self.data@[i] == old(self).data@[i] && self.owner@[i]
                    == old(self).owner@[i],
                forall|i: int| 0 <= i < old(self).data@.len() && self.data@[i] != old(
                    self,
                ).data@[i] ==> (self.data@[i] == GridState::Wire || self.data@[i]
                    == GridState::Via) && self.owner@[i] == net,
            decreases path@.len() - k,
        {
            let cell = path[k];
            let st = self.get(cell);
            if st == GridState::Free {
                let is_via = (k > 0 && path[k - 1].layer != cell.layer) || (k + 1 < path.len()
                    && path[k + 1].layer != cell.layer);
                let newst = if is_via {
                    GridState::Via
                } else {
                    GridState::Wire
                };
                let ghost prev = *self;
                let ghost idx = self.index_spec(cell);
                proof {
                    lemma_grid_index_bijection(
                        self.x_cells as int,
                        self.y_cells as int,
                        self.layers as int,
                        cell.x as int,
                        cell.y as int,
                        cell.layer as int,
                    );
                }
                self.set_owned(cell, newst, net);
                proof {
                    assert(self.data@ == prev.data@.update(idx, newst));
                    assert(self.owner@ == prev.owner@.update(idx, net));
                    assert(prev.data@[idx] == GridState::Free);
                    assert forall|i: int|
                        0 <= i < old(self).data@.len() && old(self).data@[i] != GridState::Free implies self.data@[i]
                        == old(self).data@[i] && self.owner@[i] == old(self).owner@[i] by {
                        if i == idx {
                            assert(prev.data@[i] == old(self).data@[i]);
                        } else {
                            assert(self.data@[i] == prev.data@[i]);
                            assert(self.owner@[i] == prev.owner@[i]);
                        }
                    }
                    assert forall|i: int|
                        0 <= i < old(self).data@.len() && self.data@[i] != old(self).data@[i] implies (
                        self.data@[i] == GridState::Wire || self.data@[i] == GridState::Via)
                        && self.owner@[i] == net by {
                        if i != idx {
                            assert(self.data@[i] == prev.data@[i]);
                            assert(self.owner@[i] == prev.owner@[i]);
                        }
                    }
                }
            }
            k += 1;
        }
    }
}

// ---------------------------------------------------------------------------
// The routing engine: connection requests, passes, and the routed board.
// ---------------------------------------------------------------------------

/// One two-terminal connection request of a net.
#[derive(Debug, Clone, Copy, PartialEq, Eq, Structural)]
pub struct Connection {
    pub net: NetId,
    pub a: Discrete3D,
    pub b: Discrete3D,
}

/// What a routing run yields: the board with every routed connection
/// materialized as new wires and vias, and the connections that never
/// routed.
#[derive(Debug)]
pub struct RouteResult {
    pub board: KicadPcb,
    pub deferred: Vec<Connection>,
}

/// The squared planar distance between two cells.
pub open spec fn sq_dist(a: Discrete3D, b: Discrete3D) -> int {
    let dx = if a.x >= b.x {
        a.x - b.x
    } else {
        b.x - a.x
    };
    let dy = if a.y >= b.y {
        a.y - b.y
    } else {
        b.y - a.y
    };
    dx * dx + dy * dy
}

fn dist2(a: Discrete3D, b: Discrete3D) -> (r: u128)
    requires
        a.x <= 0xFFFFFFFF,
        a.y <= 0xFFFFFFFF,
        b.x <= 0xFFFFFFFF,
        b.y <= 0xFFFFFFFF,
    ensures
        r == sq_dist(a, b),
{
    let dx: u128 = if a.x >= b.x {
        (a.x - b.x) as u128
    } else {
        (b.x - a.x) as u128
    };
    let dy: u128 = if a.y >= b.y {
        (a.y - b.y) as u128
    } else {
        (b.y - a.y) as u128
    };
    proof {
        assert(dx * dx <= 0xFFFFFFFF * 0xFFFFFFFFu128 && dy * dy <= 0xFFFFFFFF
            * 0xFFFFFFFFu128) by (nonlinear_arith)
            requires
                dx <= 0xFFFFFFFFu128,
                dy <= 0xFFFFFFFFu128,
        ;
    }
    dx * dx + dy * dy
}

/// The connection requests of one net: a minimum spanning tree over the
/// net's pad cells under squared planar distance, one request per tree edge,
/// in ascending edge-weight order with ties broken by discovery order.
#[verifier::loop_isolation(false)]
#[verifier::rlimit(100)]
#[verifier::spinoff_prover]
fn build_connections(cells: &Vec<Discrete3D>, net: NetId) -> (r: Vec<Connection>)
    requires
        cells@.len() >= 1,
        forall|i: int| 0 <= i < cells@.len() ==> (#[trigger] cells@[i]).x <= 0xFFFFFFFF
            && cells@[i].y <= 0xFFFFFFFF,
    ensures
        forall|i: int| 0 <= i < r@.len() ==> (#[trigger] r@[i]).net == net && (exists|j: int|
            0 <= j < cells@.len() && cells@[j] == r@[i].a) && (exists|j: int|
            0 <= j < cells@.len() && cells@[j] == r@[i].b),
{
    let k = cells.len();
    // Prim's construction, from the first pad, lowest index first on ties.
    let mut intree: Vec<bool> = Vec::new();
    let mut key: Vec<u128> = Vec::new();
    let mut parent: Vec<usize> = Vec::new();
    let mut t: usize = 0;
    while t < k
        invariant
            t <= k,
            intree@.len() == t,
            key@.len() == t,
            parent@.len() == t,
            forall|j: int| 0 <= j < t ==> #[trigger] parent@[j] < k,
        decreases k - t,
    {
        intree.push(false);
        key.push(u128::MAX);
        parent.push(0);
        t += 1;
    }
    key.set(0, 0);
    let mut edges: Vec<(u128, usize, usize)> = Vec::new();
    let mut round: usize = 0;
    while round < k
        invariant
            round <= k,
            k == cells@.len(),
            intree@.len() == k,
            key@.len() == k,
            parent@.len() == k,
            forall|j: int| 0 <= j < k ==> #[trigger] parent@[j] < k,
            forall|j: int| 0 <= j < edges@.len() ==> (#[trigger] edges@[j]).1 < k && edges@[j].2
                < k,
        decreases k - round,
    {
        let mut best: usize = k;
        let mut bestk: u128 = u128::MAX;
        let mut j: usize = 0;
        while j < k
            invariant
                j <= k,
                intree@.len() == k,
                key@.len() == k,
                best <= k,
            decreases k - j,
        {
            if !intree[j] && key[j] < bestk {
                best = j;
                bestk = key[j];
            }
            j += 1;
        }
        if best == k {
            break ;
        }
        intree.set(best, true);
        if best != 0 {
            edges.push((bestk, parent[best], best));
        }
        let mut u: usize = 0;
        while u < k
            invariant
                u <= k,
                k == cells@.len(),
                best < k,
                intree@.len() == k,
                key@.len() == k,
                parent@.len() == k,
                forall|j2: int| 0 <= j2 < k ==> #[trigger] parent@[j2] < k,
            decreases k - u,
        {
            if !intree[u] {
                let w = dist2(cells[best], cells[u]);
                if w < key[u] {
                    key.set(u, w);
                    parent.set(u, best);
                }
            }
            u += 1;
        }
        round += 1;
    }
    // Ascending edge weight; insertion keeps equal weights in discovery
    // order.
    let ghost elen = edges@.len();
    let mut si: usize = 1;
    while si < edges.len()
        invariant
            1 <= si,
            edges@.len() == elen,
            k == cells@.len(),
            forall|j: int| 0 <= j < edges@.len() ==> (#[trigger] edges@[j]).1 < k && edges@[j].2
                < k,
        decreases edges@.len() - si,
    {
        let mut sj: usize = si;
        while sj > 0 && edges[sj - 1].0 > edges[sj].0
            invariant
                sj <= si < edges@.len(),
                edges@.len() == elen,
                k == cells@.len(),
                forall|j: int| 0 <= j < edges@.len() ==> (#[trigger] edges@[j]).1 < k
                    && edges@[j].2 < k,
            decreases sj,
        {
            let ea = edges[sj - 1];
            let eb = edges[sj];
            edges.set(sj - 1, eb);
            edges.set(sj, ea);
            sj -= 1;
        }
        si += 1;
    }
    let mut out: Vec<Connection> = Vec::new();
    let mut oi: usize = 0;
    while oi < edges.len()
        invariant
            oi <= edges@.len(),
            k == cells@.len(),
            forall|j: int| 0 <= j < edges@.len() ==> (#[trigger] edges@[j]).1 < k && edges@[j].2
                < k,
            forall|i: int| 0 <= i < out@.len() ==> (#[trigger] out@[i]).net == net && (exists|
                j: int,
            |
                0 <= j < cells@.len() && cells@[j] == out@[i].a) && (exists|j: int|
                0 <= j < cells@.len() && cells@[j] == out@[i].b),
        decreases edges@.len() - oi,
    {
        let e = edges[oi];
        let c = Connection { net: net, a: cells[e.1], b: cells[e.2] };
        out.push(c);
        proof {
            assert(cells@[e.1 as int] == c.a);
            assert(cells@[e.2 as int] == c.b);
        }
        oi += 1;
    }
    out
}

/// Whether every committed entry still stands in the grid: its path runs
/// from its connection's source to its target over cells its net may occupy,
/// and every one of those cells is occupied (committed or already owned).
pub open spec fn committed_ok(r: Raster, cs: Seq<(Connection, Vec<Discrete3D>)>) -> bool {
    forall|k: int|
        0 <= k < cs.len() ==> {
            let e = #[trigger] cs[k];
            &&& r.path_ok(e.1@, e.0.a, e.0.b, e.0.net as int)
            &&& forall|j: int| 0 <= j < e.1@.len() ==> r.cell(#[trigger] e.1@[j])
                != GridState::Free
        }
}

/// Whether `c` is one of `all`.
pub open spec fn contains_conn(all: Seq<Connection>, c: Connection) -> bool {
    exists|j: int| 0 <= j < all.len() && all[j] == c
}

/// Whether every connection of `sub` is one of `all`.
pub open spec fn conns_among(sub: Seq<Connection>, all: Seq<Connection>) -> bool {
    forall|i: int| 0 <= i < sub.len() ==> contains_conn(all, #[trigger] sub[i])
}

/// Whether every committed entry's connection is one of `all`.
pub open spec fn committed_among(cs: Seq<(Connection, Vec<Discrete3D>)>, all: Seq<Connection>) -> bool {
    forall|k: int| 0 <= k < cs.len() ==> contains_conn(all, (#[trigger] cs[k]).0)
}

/// Runs the pass loop: each pass tries every still-unrouted connection in
/// order and commits what routes; a later pass retries only what is left,
/// and nothing ever placed is ripped up. Occupied cells — hand-placed routes
/// above all — are never overwritten. Every connection comes back exactly
/// once, committed with a valid path or deferred.
#[verifier::loop_isolation(false)]
#[verifier::rlimit(60)]
fn run_passes(raster: &mut Raster, conns: Vec<Connection>, max_passes: usize, via_penalty: u64) -> (r: (
    Vec<(Connection, Vec<Discrete3D>)>,
    Vec<Connection>,
))
    requires
        old(raster).wf(),
        via_penalty >= 1,
        forall|i: int| 0 <= i < conns@.len() ==> old(raster).in_bounds((#[trigger] conns@[i]).a)
            && old(raster).in_bounds(conns@[i].b),
    ensures
        final(raster).wf(),
        final(raster).x_cells == old(raster).x_cells,
        final(raster).y_cells == old(raster).y_cells,
        final(raster).layers == old(raster).layers,
        final(raster).spacing == old(raster).spacing,
        final(raster).data@.len() == old(raster).data@.len(),
        forall|i: int| 0 <= i < old(raster).data@.len() && old(raster).data@[i] != GridState::Free
            ==> final(raster).data@[i] == old(raster).data@[i] && final(raster).owner@[i] == old(
            raster,
        ).owner@[i],
        forall|i: int| 0 <= i < old(raster).data@.len() && final(raster).data@[i] != old(
            raster,
        ).data@[i] ==> final(raster).data@[i] == GridState::Wire || final(raster).data@[i]
            == GridState::Via,
        r.0@.len() + r.1@.len() == conns@.len(),
        conns_among(r.1@, conns@),
        committed_among(r.0@, conns@),
        committed_ok(*final(raster), r.0@),
{
    let ghost total = conns@.len();
    let ghost all = conns@;
    let mut pending = conns;
    let mut committed: Vec<(Connection, Vec<Discrete3D>)> = Vec::new();
    proof {
        assert forall|i: int| 0 <= i < pending@.len() implies contains_conn(
            all,
            #[trigger] pending@[i],
        ) by {
            assert(all[i] == pending@[i]);
        }
    }
    let mut pass: usize = 0;
    while pass < max_passes
        invariant
            raster.wf(),
            raster.x_cells == old(raster).x_cells,
            raster.y_cells == old(raster).y_cells,
            raster.layers == old(raster).layers,
            raster.spacing == old(raster).spacing,
            raster.data@.len() == old(raster).data@.len(),
            forall|i: int| 0 <= i < pending@.len() ==> old(raster).in_bounds(
                (#[trigger] pending@[i]).a,
            ) && old(raster).in_bounds(pending@[i].b),
            forall|i: int| 0 <= i < old(raster).data@.len() && old(raster).data@[i]
                != GridState::Free ==> raster.data@[i] == old(raster).data@[i] && raster.owner@[i]
                == old(raster).owner@[i],
            forall|i: int| 0 <= i < old(raster).data@.len() && raster.data@[i] != old(
                raster,
            ).data@[i] ==> raster.data@[i] == GridState::Wire || raster.data@[i]
                == GridState::Via,
            committed@.len() + pending@.len() == total,
            conns_among(pending@, all),
            committed_among(committed@, all),
            committed_ok(*raster, committed@),
        decreases max_passes - pass,
    {
        if pending.len() == 0 {
            break ;
        }
        let mut next_pending: Vec<Connection> = Vec::new();
        let mut ci: usize = 0;
        while ci < pending.len()
            invariant
                ci <= pending@.len(),
                raster.wf(),
                raster.x_cells == old(raster).x_cells,
                raster.y_cells == old(raster).y_cells,
                raster.layers == old(raster).layers,
                raster.spacing == old(raster).spacing,
                raster.data@.len() == old(raster).data@.len(),
                forall|i: int| 0 <= i < pending@.len() ==> old(raster).in_bounds(
                    (#[trigger] pending@[i]).a,
                ) && old(raster).in_bounds(pending@[i].b),
                forall|i: int| 0 <= i < next_pending@.len() ==> old(raster).in_bounds(
                    (#[trigger] next_pending@[i]).a,
                ) && old(raster).in_bounds(next_pending@[i].b),
                forall|i: int| 0 <= i < old(raster).data@.len() && old(raster).data@[i]
                    != GridState::Free ==> raster.data@[i] == old(raster).data@[i]
                    && raster.owner@[i] == old(raster).owner@[i],
                forall|i: int| 0 <= i < old(raster).data@.len() && raster.data@[i] != old(
                    raster,
                ).data@[i] ==> raster.data@[i] == GridState::Wire || raster.data@[i]
                    == GridState::Via,
                committed@.len() + next_pending@.len() + (pending@.len() - ci) == total,
                conns_among(pending@, all),
                conns_among(next_pending@, all),
                committed_among(committed@, all),
                committed_ok(*raster, committed@),
            decreases pending@.len() - ci,
        {
            let c = pending[ci];
            let ghost before = *raster;
            match raster.search(c.a, c.b, c.net, via_penalty) {
                Some(path) => {
                    raster.commit_path(&path, c.net);
                    proof {
                        lemma_committed_preserved(before, *raster, committed@, path@, c.net);
                        lemma_new_commit_ok(before, *raster, path@, c);
                    }
                    let ghost oldc = committed@;
                    committed.push((c, path));
                    proof {
                        assert(committed@ == oldc.push((c, path)));
                        assert forall|k: int|
                            0 <= k < committed@.len() implies contains_conn(
                            all,
                            (#[trigger] committed@[k]).0,
                        ) by {
                            if k < oldc.len() {
                                assert(committed@[k] == oldc[k]);
                            } else {
                                assert(committed@[k].0 == c);
                                assert(contains_conn(all, pending@[ci as int]));
                            }
                        }
                        assert forall|k: int|
                            0 <= k < committed@.len() implies {
                            let e = #[trigger] committed@[k];
                            &&& raster.path_ok(e.1@, e.0.a, e.0.b, e.0.net as int)
                            &&& forall|j: int| 0 <= j < e.1@.len() ==> raster.cell(
                                #[trigger] e.1@[j],
                            ) != GridState::Free
                        } by {
                            if k < oldc.len() {
                                assert(committed@[k] == oldc[k]);
                            } else {
                                assert(committed@[k] == (c, path));
                            }
                        }
                    }
                },
                None => {
                    next_pending.push(c);
                },
            }
            ci += 1;
        }
        pending = next_pending;
        pass += 1;
    }
    (committed, pending)
}

/// After one more path commits, every earlier committed entry still stands:
/// its cells were occupied, so the commit left them exactly as they were.
proof fn lemma_committed_preserved(
    before: Raster,
    after: Raster,
    cs: Seq<(Connection, Vec<Discrete3D>)>,
    path: Seq<Discrete3D>,
    net: NetId,
)
    requires
        before.wf(),
        after.wf(),
        after.x_cells == before.x_cells,
        after.y_cells == before.y_cells,
        after.layers == before.layers,
        after.spacing == before.spacing,
        after.data@.len() == before.data@.len(),
        forall|i: int| 0 <= i < before.data@.len() && before.data@[i] != GridState::Free
            ==> after.data@[i] == before.data@[i] && after.owner@[i] == before.owner@[i],
        committed_ok(before, cs),
    ensures
        committed_ok(after, cs),
{
    assert forall|k: int|
        0 <= k < cs.len() implies {
        let e = #[trigger] cs[k];
        &&& after.path_ok(e.1@, e.0.a, e.0.b, e.0.net as int)
        &&& forall|j: int| 0 <= j < e.1@.len() ==> after.cell(#[trigger] e.1@[j])
            != GridState::Free
    } by {
        let e = cs[k];
        assert forall|j: int|
            0 <= j < e.1@.len() implies after.in_bounds(#[trigger] e.1@[j]) && passable(
            after.cell(e.1@[j]),
            after.cell_owner(e.1@[j]),
            e.0.net as int,
        ) && after.cell(e.1@[j]) != GridState::Free by {
            let q = e.1@[j];
            assert(before.in_bounds(q) && passable(
                before.cell(q),
                before.cell_owner(q),
                e.0.net as int,
            ));
            assert(before.cell(q) != GridState::Free);
            lemma_grid_index_bijection(
                before.x_cells as int,
                before.y_cells as int,
                before.layers as int,
                q.x as int,
                q.y as int,
                q.layer as int,
            );
            assert(after.cell(q) == before.cell(q));
            assert(after.cell_owner(q) == before.cell_owner(q));
        }
        assert(after.path_ok(e.1@, e.0.a, e.0.b, e.0.net as int)) by {
            assert(before.path_ok(e.1@, e.0.a, e.0.b, e.0.net as int));
        }
    }
}

/// A freshly committed path stands in the grid it was committed to: each of
/// its cells is now occupied, by its own net's new route or by what already
/// stood there, and all of it stays passable for that net.
proof fn lemma_new_commit_ok(
    before: Raster,
    after: Raster,
    path: Seq<Discrete3D>,
    c: Connection,
)
    requires
        before.wf(),
        after.wf(),
        after.x_cells == before.x_cells,
        after.y_cells == before.y_cells,
        after.layers == before.layers,
        after.spacing == before.spacing,
        after.data@.len() == before.data@.len(),
        before.path_ok(path, c.a, c.b, c.net as int),
        after.grid() == commit_from(before.dims(), before.grid(), path, 0, c.net),
        forall|i: int| 0 <= i < before.data@.len() && before.data@[i] != GridState::Free
            ==> after.data@[i] == before.data@[i] && after.owner@[i] == before.owner@[i],
        forall|i: int| 0 <= i < before.data@.len() && after.data@[i] != before.data@[i] ==> (
        after.data@[i] == GridState::Wire || after.data@[i] == GridState::Via) && after.owner@[i]
            == c.net,
    ensures
        after.path_ok(path, c.a, c.b, c.net as int),
        forall|j: int| 0 <= j < path.len() ==> after.cell(#[trigger] path[j]) != GridState::Free,
{
    let d0 = before.dims();
    lemma_commit_covers(d0, before.grid(), path, 0, c.net);
    assert forall|j: int|
        0 <= j < path.len() implies after.in_bounds(#[trigger] path[j]) && passable(
        after.cell(path[j]),
        after.cell_owner(path[j]),
        c.net as int,
    ) && after.cell(path[j]) != GridState::Free by {
        let q = path[j];
        assert(before.in_bounds(q) && passable(
            before.cell(q),
            before.cell_owner(q),
            c.net as int,
        ));
        lemma_grid_index_bijection(
            before.x_cells as int,
            before.y_cells as int,
            before.layers as int,
            q.x as int,
            q.y as int,
            q.layer as int,
        );
        let idx = before.index_spec(q);
        assert(after.data@[idx] == commit_from(d0, before.grid(), path, 0, c.net).states[idx]);
        assert(after.data@[idx] != GridState::Free);
        if after.data@[idx] == before.data@[idx] {
            assert(after.cell_owner(q) == before.cell_owner(q)) by {
                if before.data@[idx] != GridState::Free {
                } else {
                    assert(false);
                }
            }
        } else {
            assert((after.data@[idx] == GridState::Wire || after.data@[idx] == GridState::Via)
                && after.owner@[idx] == c.net);
        }
    }
}

impl Raster {
    /// Routes the given connection requests over this grid, in order, across
    /// up to `max_passes` passes: what routes is committed as this run's
    /// wires and vias, what never routes is handed back deferred. Occupied
    /// cells — hand-placed routes above all — are never overwritten, every
    /// connection comes back exactly once, and every committed path still
    /// stands valid in the final grid.
    pub fn route(&mut self, connections: Vec<Connection>, max_passes: usize, via_penalty: u64) -> (r: (
        Vec<(Connection, Vec<Discrete3D>)>,
        Vec<Connection>,
    ))
        requires
            old(self).wf(),
            via_penalty >= 1,
            forall|i: int| 0 <= i < connections@.len() ==> old(self).in_bounds(
                (#[trigger] connections@[i]).a,
            ) && old(self).in_bounds(connections@[i].b),
        ensures
            final(self).wf(),
            final(self).x_cells == old(self).x_cells,
            final(self).y_cells == old(self).y_cells,
            final(self).layers == old(self).layers,
            final(self).spacing == old(self).spacing,
            final(self).data@.len() == old(self).data@.len(),
            forall|i: int| 0 <= i < old(self).data@.len() && old(self).data@[i] != GridState::Free
                ==> final(self).data@[i] == old(self).data@[i] && final(self).owner@[i] == old(
                self,
            ).owner@[i],
            forall|i: int| 0 <= i < old(self).data@.len() && final(self).data@[i] != old(
                self,
            ).data@[i] ==> final(self).data@[i] == GridState::Wire || final(self).data@[i]
                == GridState::Via,
            r.0@.len() + r.1@.len() == connections@.len(),
            conns_among(r.1@, connections@),
            committed_among(r.0@, connections@),
            committed_ok(*final(self), r.0@),
    {
        run_passes(self, connections, max_passes, via_penalty)
    }
}

/// The continuous ordinate of a cell ordinate: the cell count times the
/// spacing, exactly; nothing where it leaves `i64`.
fn coord_of(c: usize, spacing: Decimal) -> (r: Option<Decimal>)
    requires
        c <= 0xFFFFFFFF,
        1 <= spacing.mantissa,
    ensures
        r matches Some(d) ==> d.mantissa == c as int * spacing.mantissa && d.scale
            == spacing.scale,
{
    proof {
        assert((c as i128) * (spacing.mantissa as i128) <= 0xFFFFFFFF
            * 9223372036854775807i128) by (nonlinear_arith)
            requires
                0 <= (c as i128) <= 0xFFFFFFFFi128,
                1 <= (spacing.mantissa as i128) <= 9223372036854775807i128,
        ;
    }
    let m: i128 = (c as i128) * (spacing.mantissa as i128);
    if m > i64::MAX as i128 {
        return None;
    }
    Some(Decimal { mantissa: m as i64, scale: spacing.scale })
}

/// The sign of one planar step, per axis.
fn step_dir(from: usize, to: usize) -> (r: i8)
    ensures
        r == 1 ==> to > from,
        r == -1i8 ==> to < from,
        r == 0 ==> to == from,
        r == 1 || r == -1i8 || r == 0,
{
    if to > from {
        1
    } else if to < from {
        -1
    } else {
        0
    }
}

/// Appends one wire entity for a straight run of cells, if its coordinates
/// can be written.
fn emit_wire(
    wires: &mut Vec<Wire>,
    a: Discrete3D,
    b: Discrete3D,
    net: NetId,
    spacing: Decimal,
    names: &Vec<String>,
)
    requires
        a.x <= 0xFFFFFFFF,
        a.y <= 0xFFFFFFFF,
        b.x <= 0xFFFFFFFF,
        b.y <= 0xFFFFFFFF,
        1 <= spacing.mantissa,
    ensures
        final(wires)@.len() >= old(wires)@.len(),
        forall|j: int| 0 <= j < old(wires)@.len() ==> #[trigger] final(wires)@[j] == old(
            wires,
        )@[j],
{
    if a == b {
        return ;
    }
    if a.layer >= names.len() {
        return ;
    }
    let x0 = match coord_of(a.x, spacing) {
        Some(d) => d,
        None => {
            return ;
        },
    };
    let y0 = match coord_of(a.y, spacing) {
        Some(d) => d,
        None => {
            return ;
        },
    };
    let x1 = match coord_of(b.x, spacing) {
        Some(d) => d,
        None => {
            return ;
        },
    };
    let y1 = match coord_of(b.y, spacing) {
        Some(d) => d,
        None => {
            return ;
        },
    };
    let w = Wire {
        net_id: net,
        layer_name: names[a.layer].clone(),
        start: [x0, y0],
        end: [x1, y1],
    };
    wires.push(w);
}

/// Appends one via entity for a layer change, if its coordinates can be
/// written.
fn emit_via(
    vias: &mut Vec<Via>,
    at: Discrete3D,
    other_layer: usize,
    net: NetId,
    spacing: Decimal,
    names: &Vec<String>,
)
    requires
        at.x <= 0xFFFFFFFF,
        at.y <= 0xFFFFFFFF,
        1 <= spacing.mantissa,
    ensures
        final(vias)@.len() >= old(vias)@.len(),
        forall|j: int| 0 <= j < old(vias)@.len() ==> #[trigger] final(vias)@[j] == old(vias)@[j],
{
    if at.layer >= names.len() || other_layer >= names.len() {
        return ;
    }
    let x = match coord_of(at.x, spacing) {
        Some(d) => d,
        None => {
            return ;
        },
    };
    let y = match coord_of(at.y, spacing) {
        Some(d) => d,
        None => {
            return ;
        },
    };
    let mut layers: Vec<String> = Vec::new();
    layers.push(names[at.layer].clone());
    layers.push(names[other_layer].clone());
    let v = Via { net_id: net, at: [x, y], layers: layers };
    vias.push(v);
}

/// Turns one committed path into board entities: runs of colinear same-layer
/// cells merge into single wires, and each layer change becomes a via
/// spanning exactly the two layers involved.
#[verifier::loop_isolation(false)]
fn emit_path(
    wires: &mut Vec<Wire>,
    vias: &mut Vec<Via>,
    path: &Vec<Discrete3D>,
    net: NetId,
    spacing: Decimal,
    names: &Vec<String>,
)
    requires
        1 <= spacing.mantissa,
        forall|i: int| 0 <= i < path@.len() ==> (#[trigger] path@[i]).x <= 0xFFFFFFFF
            && path@[i].y <= 0xFFFFFFFF,
    ensures
        final(wires)@.len() >= old(wires)@.len(),
        forall|j: int| 0 <= j < old(wires)@.len() ==> #[trigger] final(wires)@[j] == old(
            wires,
        )@[j],
        final(vias)@.len() >= old(vias)@.len(),
        forall|j: int| 0 <= j < old(vias)@.len() ==> #[trigger] final(vias)@[j] == old(vias)@[j],
{
    if path.len() == 0 {
        return ;
    }
    let mut run_start: Discrete3D = path[0];
    let mut prev: Discrete3D = path[0];
    let mut dir: (i8, i8) = (0, 0);
    let mut have_dir: bool = false;
    let mut i: usize = 1;
    while i < path.len()
        invariant
            1 <= i,
            run_start.x <= 0xFFFFFFFF,
            run_start.y <= 0xFFFFFFFF,
            prev.x <= 0xFFFFFFFF,
            prev.y <= 0xFFFFFFFF,
            wires@.len() >= old(wires)@.len(),
            forall|j: int| 0 <= j < old(wires)@.len() ==> #[trigger] wires@[j] == old(wires)@[j],
            vias@.len() >= old(vias)@.len(),
            forall|j: int| 0 <= j < old(vias)@.len() ==> #[trigger] vias@[j] == old(vias)@[j],
        decreases path@.len() - i,
    {
        let cur = path[i];
        if cur.layer != prev.layer {
            emit_wire(wires, run_start, prev, net, spacing, names);
            emit_via(vias, prev, cur.layer, net, spacing, names);
            run_start = cur;
            have_dir = false;
        } else {
            let d = (step_dir(prev.x, cur.x), step_dir(prev.y, cur.y));
            if have_dir && !(d.0 == dir.0 && d.1 == dir.1) {
                emit_wire(wires, run_start, prev, net, spacing, names);
                run_start = prev;
            }
            dir = d;
            have_dir = true;
        }
        prev = cur;
        i += 1;
    }
    emit_wire(wires, run_start, prev, net, spacing, names);
}

impl KicadPcb {
    /// Routes every net with at least two pads: pads are gathered per net,
    /// a minimum spanning tree orders the two-terminal requests shortest
    /// first, and a wavefront search connects each over the grid across up
    /// to `max_passes` passes. The routed board keeps everything the
    /// original had, with the new wires and vias appended; connections that
    /// never routed are reported, not raised. Settings the grid cannot honor
    /// are rejected outright, and only those.
    #[verifier::loop_isolation(false)]
    pub fn route(&self, settings: &RouterSettings) -> (r: Result<
        RouteResult,
        crate::router::KicadPcbError,
    >)
        ensures
            r is Ok <==> settings.via_penalty >= 1 && grid_settings_ok(self@, *settings),
            (match r {
                Ok(rr) => {
                    &&& rr.board@.general == self@.general
                    &&& rr.board@.layers == self@.layers
                    &&& rr.board@.nets == self@.nets
                    &&& rr.board@.footprints == self@.footprints
                    &&& rr.board@.wires.len() >= self@.wires.len()
                    &&& rr.board@.wires.take(self@.wires.len() as int) == self@.wires
                    &&& rr.board@.vias.len() >= self@.vias.len()
                    &&& rr.board@.vias.take(self@.vias.len() as int) == self@.vias
                },
                Err(e) => e is Other,
            }),
    {
        if settings.via_penalty < 1 {
            return Err(crate::router::KicadPcbError::Other(String::from_str(
                "via penalty rejected",
            )));
        }
        let mut raster = match Raster::new(self, settings) {
            Ok(ra) => ra,
            Err(e) => {
                return Err(e);
            },
        };
        // Gather the connection requests, net by net.
        let mut conns: Vec<Connection> = Vec::new();
        let mut ni: usize = 0;
        while ni < self.nets.len()
            invariant
                raster.wf(),
                forall|i: int| 0 <= i < conns@.len() ==> raster.in_bounds(
                    (#[trigger] conns@[i]).a,
                ) && raster.in_bounds(conns@[i].b),
            decreases self.nets@.len() - ni,
        {
            let net_id = self.nets[ni].id;
            let mut cells: Vec<Discrete3D> = Vec::new();
            let mut fi: usize = 0;
            while fi < self.footprints.len()
                invariant
                    raster.wf(),
                    forall|i: int| 0 <= i < cells@.len() ==> raster.in_bounds(
                        #[trigger] cells@[i],
                    ),
                decreases self.footprints@.len() - fi,
            {
                let fp = &self.footprints[fi];
                let mut pi: usize = 0;
                while pi < fp.pads.len()
                    invariant
                        raster.wf(),
                        forall|i: int| 0 <= i < cells@.len() ==> raster.in_bounds(
                            #[trigger] cells@[i],
                        ),
                    decreases fp.pads@.len() - pi,
                {
                    let pad = &fp.pads[pi];
                    if pad.net.id == net_id {
                        match raster.get_discrete(&pad.abs_at, PAD_LAYER) {
                            Some(c) => {
                                cells.push(c);
                            },
                            None => {},
                        }
                    }
                    pi += 1;
                }
                fi += 1;
            }
            if cells.len() >= 2 {
                let mut es = build_connections(&cells, net_id);
                let ghost esv = es@;
                proof {
                    assert forall|i: int| 0 <= i < esv.len() implies raster.in_bounds(
                        (#[trigger] esv[i]).a,
                    ) && raster.in_bounds(esv[i].b) by {
                        let ja = choose|j: int| 0 <= j < cells@.len() && cells@[j] == esv[i].a;
                        let jb = choose|j: int| 0 <= j < cells@.len() && cells@[j] == esv[i].b;
                    }
                }
                conns.append(&mut es);
            }
            ni += 1;
        }
        // Route, pass by pass.
        let (committed, deferred) = raster.route(conns, settings.max_passes, settings.via_penalty);
        // Materialize the committed paths onto a copy of the board.
        let names = self.signal_names();
        let mut board = self.clone();
        let ghost w0 = board.wires@;
        let ghost v0 = board.vias@;
        let mut pi2: usize = 0;
        while pi2 < committed.len()
            invariant
                board.wires@.len() >= w0.len(),
                forall|j: int| 0 <= j < w0.len() ==> #[trigger] board.wires@[j] == w0[j],
                board.vias@.len() >= v0.len(),
                forall|j: int| 0 <= j < v0.len() ==> #[trigger] board.vias@[j] == v0[j],
                board.general@ == self@.general,
                view_layers(board.layers@) == self@.layers,
                view_nets(board.nets@) == self@.nets,
                view_footprints(board.footprints@) == self@.footprints,
                raster.wf(),
            decreases committed@.len() - pi2,
        {
            let (conn, path) = &committed[pi2];
            // Only cells of this grid were committed; skip any that cannot
            // be written back.
            let mut all_small = true;
            let mut ci: usize = 0;
            while ci < path.len()
                invariant
                    ci <= path@.len(),
                    all_small ==> forall|j: int| 0 <= j < ci ==> (#[trigger] path@[j]).x
                        <= 0xFFFFFFFF && path@[j].y <= 0xFFFFFFFF,
                decreases path@.len() - ci,
            {
                if path[ci].x > 0xFFFFFFFF || path[ci].y > 0xFFFFFFFF {
                    all_small = false;
                }
                ci += 1;
            }
            if all_small {
                emit_path(&mut board.wires, &mut board.vias, path, conn.net, raster.spacing, &names);
            }
            pi2 += 1;
        }
        proof {
            assert(view_wires(board.wires@).take(w0.len() as int) =~= view_wires(w0));
            assert(view_vias(board.vias@).take(v0.len() as int) =~= view_vias(v0));
        }
        Ok(RouteResult { board: board, deferred: deferred })
    }
}

} // verus!
