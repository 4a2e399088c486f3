//! The matrix engine: grid storage, simulation state, and the per-tick
//! stepping of all travelers at once, with collision detection running as a
//! read-only pre-pass and every tick committing atomically or not at all.

use vstd::prelude::*;

use crate::coord_map::CoordMap;
use crate::coords::in_bounds;
use crate::coords::loc_of;
use crate::coords::move_loc;
use crate::coords::Coord;
use crate::coords::MAX_DIM;
use crate::direction::Direction;
use crate::l3x::CmdView;
use crate::l3x::InstrView;
use crate::l3x::L3XCommand;
use crate::l3x::L3X;
use crate::registers::div_factors;
use crate::registers::mul_factors;
use crate::registers::mul_fits;
use crate::registers::wf_factors;
use crate::registers::Registers;
use crate::swapbuffer::SwapBuffer;
use crate::traveler::TravView;
use crate::traveler::Traveler;

verus! {

/// Which dialect the grid runs: L3 has a single input and output; L3X adds
/// a stream input queue and a stream output column.
#[derive(Debug, PartialEq, Eq, Structural, Clone, Copy)]
pub enum MatrixMode {
    L3,
    L3X,
}

impl Default for MatrixMode {
    fn default() -> (r: Self)
        ensures
            r == MatrixMode::L3,
    {
        MatrixMode::L3
    }
}

impl MatrixMode {
    /// The smallest grid the dialect allows.
    pub fn minimum_size(&self) -> (r: Coord)
        ensures
            self == MatrixMode::L3 ==> r == (Coord { x: 1, y: 1 }),
            self == MatrixMode::L3X ==> r == (Coord { x: 2, y: 2 }),
    {
        match self {
            MatrixMode::L3 => Coord { x: 1, y: 1 },
            MatrixMode::L3X => Coord { x: 2, y: 2 },
        }
    }
}

/// Why a tick refuses to commit.
#[derive(Debug, PartialEq, Eq, Structural, Clone, Copy)]
pub enum StepError {
    /// Two travelers would occupy the same cell.
    Collision,
    /// A traveler left the grid somewhere other than an output port.
    OffGrid,
    /// A second traveler claimed the single-output port.
    OutputClaimed,
    /// A multiplication pushed an exponent beyond the native width.
    ValueOverflow,
}

/// An inclusive rectangle of grid cells.
#[derive(Debug, PartialEq, Eq, Structural, Clone, Copy)]
pub struct Selection {
    pub starts: Coord,
    pub ends: Coord,
}

pub open spec fn sel_wf(s: Selection) -> bool {
    &&& 0 <= s.starts.x <= s.ends.x <= 2 * MAX_DIM + 2
    &&& 0 <= s.starts.y <= s.ends.y <= 2 * MAX_DIM + 2
}

impl Selection {
    /// A one-cell selection.
    pub fn of_cell(c: Coord) -> (r: Selection)
        ensures
            r.starts == c,
            r.ends == c,
    {
        Selection { starts: c, ends: c }
    }

    /// The same region with its extent mirrored across the diagonal.
    pub fn transpose(self) -> (r: Selection)
        requires
            sel_wf(self),
        ensures
            r.starts == self.starts,
            r.ends.x as int == self.starts.x + (self.ends.y - self.starts.y),
            r.ends.y as int == self.starts.y + (self.ends.x - self.starts.x),
    {
        Selection {
            starts: self.starts,
            ends: Coord {
                x: self.starts.x + (self.ends.y - self.starts.y),
                y: self.starts.y + (self.ends.x - self.starts.x),
            },
        }
    }

    /// Whether the rectangle holds the given cell.
    pub fn contains(&self, location: Coord) -> (r: bool)
        ensures
            r == (self.starts.x <= location.x <= self.ends.x && self.starts.y <= location.y
                <= self.ends.y),
    {
        self.starts.x <= location.x && location.x <= self.ends.x && self.starts.y <= location.y
            && location.y <= self.ends.y
    }

    /// The same-shaped rectangle anchored at `new_start`.
    pub fn to(self, new_start: Coord) -> (r: Selection)
        requires
            sel_wf(self),
            0 <= new_start.x <= MAX_DIM,
            0 <= new_start.y <= MAX_DIM,
        ensures
            r.starts == new_start,
            r.ends.x as int == new_start.x + (self.ends.x - self.starts.x),
            r.ends.y as int == new_start.y + (self.ends.y - self.starts.y),
    {
        Selection {
            starts: new_start,
            ends: Coord {
                x: new_start.x + (self.ends.x - self.starts.x),
                y: new_start.y + (self.ends.y - self.starts.y),
            },
        }
    }

    /// Number of columns covered.
    pub fn width(&self) -> (r: i32)
        requires
            sel_wf(*self),
        ensures
            r as int == self.ends.x - self.starts.x + 1,
    {
        self.ends.x - self.starts.x + 1
    }

    /// Number of rows covered.
    pub fn height(&self) -> (r: i32)
        requires
            sel_wf(*self),
        ensures
            r as int == self.ends.y - self.starts.y + 1,
    {
        self.ends.y - self.starts.y + 1
    }
}

/// A rectangular block of cells, possibly sparse, as cut or pasted by the
/// editing operations.
#[derive(Debug, PartialEq)]
pub struct L3XData {
    pub data: Vec<Vec<Option<L3X>>>,
    pub dims: Coord,
}

pub open spec fn data_wf(d: &L3XData) -> bool {
    &&& 0 <= d.dims.x <= 2 * MAX_DIM + 3
    &&& 0 <= d.dims.y <= 2 * MAX_DIM + 3
    &&& d.data@.len() == d.dims.y
    &&& forall|i: int| 0 <= i < d.data@.len() ==> (#[trigger] d.data@[i])@.len() == d.dims.x
    &&& forall|i: int, j: int|
        0 <= i < d.data@.len() && 0 <= j < d.data@[i]@.len() ==> match (#[trigger] d.data@[i]@[j]) {
            Some(x) => x.wf(),
            None => true,
        }
}

/// One undoable editing operation.
#[derive(Debug, PartialEq)]
pub enum MatrixAction {
    Resize(Coord),
    Swap(Selection, Coord),
    ReflectH(Selection),
    ReflectV(Selection),
    Paste(Coord, L3XData),
    Transpose(Selection),
}

pub open spec fn action_wf(a: &MatrixAction) -> bool {
    match a {
        MatrixAction::Resize(d) => 1 <= d.x <= MAX_DIM && 1 <= d.y <= MAX_DIM,
        MatrixAction::Swap(s, t) => sel_wf(*s) && 0 <= t.x <= MAX_DIM && 0 <= t.y <= MAX_DIM,
        MatrixAction::ReflectH(s) => sel_wf(*s),
        MatrixAction::ReflectV(s) => sel_wf(*s),
        MatrixAction::Paste(t, d) => data_wf(d) && 1 <= d.dims.x <= MAX_DIM + 1 && 1 <= d.dims.y
            <= MAX_DIM + 1 && 0 <= t.x <= MAX_DIM && 0 <= t.y <= MAX_DIM,
        MatrixAction::Transpose(s) => sel_wf(*s) && s.ends.x - s.starts.x == s.ends.y - s.starts.y,
    }
}

/// The simulation's mutable state, seen mathematically.
pub ghost struct SimState {
    pub travelers: Seq<TravView>,
    pub queues: Map<(int, int), Seq<Seq<(int, int)>>>,
    pub waiting: Seq<(TravView, Seq<(int, int)>)>,
    pub output: Option<Seq<(int, int)>>,
    pub stream: Seq<Seq<(int, int)>>,
}

/// The working state threaded through one tick.
pub ghost struct TickAcc {
    pub next: Seq<TravView>,
    pub queues: Map<(int, int), Seq<Seq<(int, int)>>>,
    pub waiting: Seq<(TravView, Seq<(int, int)>)>,
    pub output: Option<Seq<(int, int)>>,
    pub stream: Seq<Seq<(int, int)>>,
}

/// A well-formed instruction view: any multiplier list is normalized.
pub open spec fn iv_wf(iv: InstrView) -> bool {
    match iv.command {
        CmdView::Multiply(s) => wf_factors(s),
        _ => true,
    }
}

pub open spec fn grid_wf(g: Map<(int, int), InstrView>) -> bool {
    forall|l: (int, int)| #[trigger] g.contains_key(l) ==> iv_wf(g[l])
}

pub open spec fn queues_wf(q: Map<(int, int), Seq<Seq<(int, int)>>>) -> bool {
    forall|l: (int, int), k: int|
        q.contains_key(l) && 0 <= k < q[l].len() ==> wf_factors(#[trigger] q[l][k])
}

pub open spec fn regs_seq_wf(s: Seq<Seq<(int, int)>>) -> bool {
    forall|i: int| 0 <= i < s.len() ==> wf_factors(#[trigger] s[i])
}

pub open spec fn travs_wf(ts: Seq<TravView>) -> bool {
    forall|i: int| 0 <= i < ts.len() ==> tv_wf(#[trigger] ts[i])
}

/// A waiting traveler sits on a grid cell, so one more step stays in range.
pub open spec fn tv_near(t: TravView) -> bool {
    &&& wf_factors(t.value)
    &&& -MAX_DIM - 1 <= t.location.0 <= MAX_DIM + 1
    &&& -MAX_DIM - 1 <= t.location.1 <= MAX_DIM + 1
}

pub open spec fn waiting_wf(w: Seq<(TravView, Seq<(int, int)>)>) -> bool {
    forall|i: int|
        0 <= i < w.len() ==> tv_near((#[trigger] w[i]).0) && wf_factors(w[i].1)
}

pub open spec fn actions_wf(h: Seq<MatrixAction>) -> bool {
    forall|i: int| 0 <= i < h.len() ==> action_wf(&(#[trigger] h[i]))
}

pub open spec fn tv(value: Seq<(int, int)>, location: (int, int), direction: Direction) -> TravView {
    TravView { value, location, direction }
}

/// The single-output port: one cell below the bottom-right grid cell.
pub open spec fn single_output_loc(dims: (int, int)) -> (int, int) {
    (dims.0 - 1, dims.1)
}

/// The stream-output port (L3X): one cell below the grid, one column left
/// of the single output.
pub open spec fn stream_output_loc(dims: (int, int)) -> (int, int) {
    (dims.0 - 2, dims.1)
}

pub open spec fn is_output_loc(mode: MatrixMode, dims: (int, int), l: (int, int)) -> bool {
    l == single_output_loc(dims) || (mode == MatrixMode::L3X && l == stream_output_loc(dims))
}

/// Whether two travelers at the same spot conflict: queue cells host one
/// aligned and one unaligned traveler at most, output ports never conflict,
/// and any other shared cell is a collision.
pub open spec fn travelers_collide(
    grid: Map<(int, int), InstrView>,
    mode: MatrixMode,
    dims: (int, int),
    a: TravView,
    b: TravView,
) -> bool {
    &&& a.location == b.location
    &&& !is_output_loc(mode, dims, a.location)
    &&& if grid.contains_key(a.location) && grid[a.location].command is Queue {
        (a.direction == grid[a.location].direction) <==> (b.direction
            == grid[a.location].direction)
    } else {
        true
    }
}

pub open spec fn spec_collision_free(
    grid: Map<(int, int), InstrView>,
    mode: MatrixMode,
    dims: (int, int),
    ts: Seq<TravView>,
) -> bool {
    forall|i: int, j: int|
        0 <= i < j < ts.len() ==> !travelers_collide(grid, mode, dims, ts[i], ts[j])
}

pub open spec fn acc_push_next(acc: TickAcc, t: TravView) -> TickAcc {
    TickAcc {
        next: acc.next.push(t),
        queues: acc.queues,
        waiting: acc.waiting,
        output: acc.output,
        stream: acc.stream,
    }
}

pub open spec fn acc_set_output(acc: TickAcc, v: Seq<(int, int)>) -> TickAcc {
    TickAcc {
        next: acc.next,
        queues: acc.queues,
        waiting: acc.waiting,
        output: Some(v),
        stream: acc.stream,
    }
}

pub open spec fn acc_push_stream(acc: TickAcc, v: Seq<(int, int)>) -> TickAcc {
    TickAcc {
        next: acc.next,
        queues: acc.queues,
        waiting: acc.waiting,
        output: acc.output,
        stream: acc.stream.push(v),
    }
}

pub open spec fn acc_set_queues(acc: TickAcc, q: Map<(int, int), Seq<Seq<(int, int)>>>) -> TickAcc {
    TickAcc {
        next: acc.next,
        queues: q,
        waiting: acc.waiting,
        output: acc.output,
        stream: acc.stream,
    }
}

pub open spec fn acc_push_waiting(acc: TickAcc, w: (TravView, Seq<(int, int)>)) -> TickAcc {
    TickAcc {
        next: acc.next,
        queues: acc.queues,
        waiting: acc.waiting.push(w),
        output: acc.output,
        stream: acc.stream,
    }
}

/// Where a freshly moved traveler goes: captured by the single output,
/// appended to the output stream, or into the next generation.
pub open spec fn route_traveler(
    mode: MatrixMode,
    dims: (int, int),
    t: TravView,
    acc: TickAcc,
) -> Result<TickAcc, StepError> {
    if t.location == single_output_loc(dims) {
        match acc.output {
            Some(_) => Err(StepError::OutputClaimed),
            None => Ok(acc_set_output(acc, t.value)),
        }
    } else if mode == MatrixMode::L3X && t.location == stream_output_loc(dims) {
        Ok(acc_push_stream(acc, t.value))
    } else {
        Ok(acc_push_next(acc, t))
    }
}

/// One traveler's step against the cell it sits on, per the transition
/// function: multipliers multiply when aligned, divide or bounce when not;
/// duplicators fork; annihilators reset the value; queues absorb aligned
/// travelers and feed or suspend unaligned ones.
pub open spec fn step_traveler(
    grid: Map<(int, int), InstrView>,
    mode: MatrixMode,
    dims: (int, int),
    t: TravView,
    acc: TickAcc,
) -> Result<TickAcc, StepError> {
    if t.location == single_output_loc(dims) {
        match acc.output {
            Some(_) => Err(StepError::OutputClaimed),
            None => Ok(acc_set_output(acc, t.value)),
        }
    } else if mode == MatrixMode::L3X && t.location == stream_output_loc(dims) {
        Ok(acc_push_stream(acc, t.value))
    } else if !in_bounds(dims, t.location) {
        Err(StepError::OffGrid)
    } else if !grid.contains_key(t.location) {
        // an empty cell passes the traveler through
        route_traveler(mode, dims, tv(t.value, move_loc(t.location, t.direction), t.direction), acc)
    } else {
        let ins = grid[t.location];
        let aligned = t.direction == ins.direction;
        match ins.command {
            CmdView::Multiply(w) => {
                if aligned {
                    if !mul_fits(t.value, w) {
                        Err(StepError::ValueOverflow)
                    } else {
                        route_traveler(
                            mode,
                            dims,
                            tv(
                                mul_factors(t.value, w),
                                move_loc(t.location, ins.direction),
                                ins.direction,
                            ),
                            acc,
                        )
                    }
                } else {
                    match div_factors(t.value, w) {
                        Some(q) => route_traveler(
                            mode,
                            dims,
                            tv(q, move_loc(t.location, ins.direction), ins.direction),
                            acc,
                        ),
                        None => route_traveler(
                            mode,
                            dims,
                            tv(
                                t.value,
                                move_loc(t.location, ins.direction.spec_opposite()),
                                ins.direction.spec_opposite(),
                            ),
                            acc,
                        ),
                    }
                }
            },
            CmdView::Duplicate => {
                match route_traveler(
                    mode,
                    dims,
                    tv(t.value, move_loc(t.location, ins.direction), ins.direction),
                    acc,
                ) {
                    Err(e) => Err(e),
                    Ok(a2) => route_traveler(
                        mode,
                        dims,
                        tv(
                            t.value,
                            move_loc(t.location, ins.direction.spec_opposite()),
                            ins.direction.spec_opposite(),
                        ),
                        a2,
                    ),
                }
            },
            CmdView::Annihilate => route_traveler(
                mode,
                dims,
                tv(
                    Seq::<(int, int)>::empty(),
                    move_loc(t.location, ins.direction),
                    ins.direction,
                ),
                acc,
            ),
            CmdView::Queue => {
                if aligned {
                    let q0 = if acc.queues.contains_key(t.location) {
                        acc.queues[t.location]
                    } else {
                        Seq::<Seq<(int, int)>>::empty()
                    };
                    Ok(acc_set_queues(acc, acc.queues.insert(t.location, q0.push(t.value))))
                } else {
                    if acc.queues.contains_key(t.location) && acc.queues[t.location].len() > 0 {
                        let v = acc.queues[t.location][0];
                        if !mul_fits(t.value, v) {
                            Err(StepError::ValueOverflow)
                        } else {
                            let a2 = acc_set_queues(
                                acc,
                                acc.queues.insert(t.location, acc.queues[t.location].drop_first()),
                            );
                            route_traveler(
                                mode,
                                dims,
                                tv(
                                    mul_factors(t.value, v),
                                    move_loc(t.location, ins.direction),
                                    ins.direction,
                                ),
                                a2,
                            )
                        }
                    } else {
                        Ok(
                            acc_push_waiting(
                                acc,
                                (
                                    tv(t.value, t.location, ins.direction),
                                    Seq::<(int, int)>::empty(),
                                ),
                            ),
                        )
                    }
                }
            },
        }
    }
}

/// Steps travelers in order, threading the working state.
pub open spec fn tick_fold(
    grid: Map<(int, int), InstrView>,
    mode: MatrixMode,
    dims: (int, int),
    ts: Seq<TravView>,
    i: int,
    acc: TickAcc,
) -> Result<TickAcc, StepError>
    decreases ts.len() - i,
{
    if i < 0 || i >= ts.len() {
        Ok(acc)
    } else {
        match step_traveler(grid, mode, dims, ts[i], acc) {
            Err(e) => Err(e),
            Ok(a2) => tick_fold(grid, mode, dims, ts, i + 1, a2),
        }
    }
}

/// The first index at or after `i` of a traveler at `l`, or -1.
pub open spec fn first_index_at(ts: Seq<TravView>, l: (int, int), i: int) -> int
    decreases ts.len() - i,
{
    if i < 0 || i >= ts.len() {
        -1
    } else if ts[i].location == l {
        i
    } else {
        first_index_at(ts, l, i + 1)
    }
}

/// Resolves the waiting-for-queue list against the new traveler set: a
/// waiting traveler consumes the first new traveler at its cell, multiplies
/// that value in, advances one cell and is admitted.
pub open spec fn resolve_fold(
    waiting: Seq<(TravView, Seq<(int, int)>)>,
    j: int,
    next: Seq<TravView>,
    kept: Seq<(TravView, Seq<(int, int)>)>,
    admitted: Seq<TravView>,
) -> Result<(Seq<TravView>, Seq<(TravView, Seq<(int, int)>)>, Seq<TravView>), StepError>
    decreases waiting.len() - j,
{
    if j < 0 || j >= waiting.len() {
        Ok((next, kept, admitted))
    } else {
        let (w, a) = waiting[j];
        let ix = first_index_at(next, w.location, 0);
        if ix == -1 {
            resolve_fold(waiting, j + 1, next, kept.push((w, a)), admitted)
        } else {
            let v = next[ix].value;
            let next2 = next.update(ix, next.last()).drop_last();
            if !mul_fits(w.value, v) {
                Err(StepError::ValueOverflow)
            } else {
                let w2 = tv(
                    mul_factors(w.value, v),
                    move_loc(w.location, w.direction),
                    w.direction,
                );
                resolve_fold(waiting, j + 1, next2, kept, admitted.push(w2))
            }
        }
    }
}

/// One whole tick: the collision pre-pass, then the traveler fold, then the
/// waiting-queue resolution; any failure aborts with no state change.
pub open spec fn spec_tick(
    grid: Map<(int, int), InstrView>,
    mode: MatrixMode,
    dims: (int, int),
    st: SimState,
) -> Result<SimState, StepError> {
    if !spec_collision_free(grid, mode, dims, st.travelers) {
        Err(StepError::Collision)
    } else {
        let acc0 = TickAcc {
            next: Seq::empty(),
            queues: st.queues,
            waiting: st.waiting,
            output: st.output,
            stream: st.stream,
        };
        match tick_fold(grid, mode, dims, st.travelers, 0, acc0) {
            Err(e) => Err(e),
            Ok(acc) => match resolve_fold(
                acc.waiting,
                0,
                acc.next,
                Seq::empty(),
                Seq::empty(),
            ) {
                Err(e) => Err(e),
                Ok((nx, kept, adm)) => Ok(
                    SimState {
                        travelers: nx + adm,
                        queues: acc.queues,
                        waiting: kept,
                        output: acc.output,
                        stream: acc.stream,
                    },
                ),
            },
        }
    }
}

/// A traveler view that is safe to run: normalized value, position near the
/// grid.
pub open spec fn tv_wf(t: TravView) -> bool {
    &&& wf_factors(t.value)
    &&& -MAX_DIM - 2 <= t.location.0 <= MAX_DIM + 2
    &&& -MAX_DIM - 2 <= t.location.1 <= MAX_DIM + 2
}

/// The whole simulator.
pub struct Matrix {
    pub mode: MatrixMode,
    pub instructions: CoordMap<L3X>,
    pub dims: Coord,
    pub selecting: Option<Selection>,
    pub selecting_text: String,
    pub queues: CoordMap<Vec<Registers>>,
    pub waiting_for_queue: Vec<(Traveler, Registers)>,
    pub travelers: SwapBuffer<Traveler>,
    pub output: Option<Registers>,
    pub output_stream: Vec<Registers>,
    pub single_input: Registers,
    pub stream_input: Vec<Registers>,
    pub simulating: bool,
    pub history: Vec<MatrixAction>,
}

impl Matrix {
    pub open spec fn dims_v(&self) -> (int, int) {
        loc_of(self.dims)
    }

    pub open spec fn grid(&self) -> Map<(int, int), InstrView> {
        self.instructions@
    }

    /// The simulation state seen mathematically.
    pub open spec fn sim_view(&self) -> SimState {
        SimState {
            travelers: self.travelers.active.deep_view(),
            queues: self.queues@,
            waiting: self.waiting_for_queue.deep_view(),
            output: self.output.deep_view(),
            stream: self.output_stream.deep_view(),
        }
    }

    /// The structural invariant: bounded dimensions, one entry per grid
    /// cell, and every stored register value normalized.
    pub open spec fn wf(&self) -> bool {
        &&& 1 <= self.dims.x <= MAX_DIM
        &&& 1 <= self.dims.y <= MAX_DIM
        &&& self.instructions.inv()
        &&& self.queues.inv()
        &&& grid_wf(self.grid())
        &&& queues_wf(self.queues@)
        &&& travs_wf(self.travelers.active.deep_view())
        &&& self.travelers.inactive@.len() == 0
        &&& waiting_wf(self.waiting_for_queue.deep_view())
        &&& match self.output {
            Some(r) => wf_factors(r@),
            None => true,
        }
        &&& regs_seq_wf(self.output_stream.deep_view())
        &&& wf_factors(self.single_input@)
        &&& regs_seq_wf(self.stream_input.deep_view())
        &&& match self.selecting {
            Some(s) => sel_wf(s),
            None => true,
        }
        &&& actions_wf(self.history@)
    }

    /// A fresh, idle 1-by-1 L3 matrix.
    pub fn new() -> (r: Matrix)
        ensures
            r.wf(),
            r.mode == MatrixMode::L3,
            r.dims == (Coord { x: 1, y: 1 }),
            r.grid() == Map::<(int, int), InstrView>::empty(),
            !r.simulating,
            r.sim_view().travelers.len() == 0,
            r.sim_view().queues == Map::<(int, int), Seq<Seq<(int, int)>>>::empty(),
            r.sim_view().output is None,
            r.sim_view().stream.len() == 0,
            r.single_input@.len() == 0,
            r.stream_input@.len() == 0,
            r.history@.len() == 0,
    {
        let r = Matrix {
            mode: MatrixMode::L3,
            instructions: CoordMap::new(),
            dims: Coord { x: 1, y: 1 },
            selecting: None,
            selecting_text: String::new(),
            queues: CoordMap::new(),
            waiting_for_queue: Vec::new(),
            travelers: SwapBuffer::new(),
            output: None,
            output_stream: Vec::new(),
            single_input: Registers::one(),
            stream_input: Vec::new(),
            simulating: false,
            history: Vec::new(),
        };
        r
    }

    /// Whether a coordinate is one of the output ports.
    pub fn is_output_cell(&self, location: Coord) -> (r: bool)
        requires
            self.wf(),
        ensures
            r == is_output_loc(self.mode, self.dims_v(), loc_of(location)),
    {
        (location.x == self.dims.x - 1 && location.y == self.dims.y) || (matches!(
            self.mode,
            MatrixMode::L3X,
        ) && location.x == self.dims.x - 2 && location.y == self.dims.y)
    }

    /// The collision pre-pass: checks every pair of travelers, read-only.
    pub fn collision_free(&self) -> (r: bool)
        requires
            self.wf(),
        ensures
            r == spec_collision_free(
                self.grid(),
                self.mode,
                self.dims_v(),
                self.sim_view().travelers,
            ),
    {
        let ghost ts = self.travelers.active.deep_view();
        let n = self.travelers.active.len();
        let mut i: usize = 0;
        while i < n
            invariant
                self.wf(),
                n == self.travelers.active@.len(),
                i <= n,
                ts == self.travelers.active.deep_view(),
                forall|x: int, y: int|
                    0 <= x < y < ts.len() && x < i ==> !travelers_collide(
                        self.grid(),
                        self.mode,
                        self.dims_v(),
                        ts[x],
                        ts[y],
                    ),
            decreases n - i,
        {
            let mut j: usize = i + 1;
            while j < n
                invariant
                    self.wf(),
                    n == self.travelers.active@.len(),
                    i < n,
                    i < j <= n,
                    ts == self.travelers.active.deep_view(),
                    forall|y: int| i < y < j ==> !travelers_collide(
                        self.grid(),
                        self.mode,
                        self.dims_v(),
                        ts[i as int],
                        ts[y],
                    ),
                decreases n - j,
            {
                let a = &self.travelers.active[i];
                let b = &self.travelers.active[j];
                proof {
                    assert(ts[i as int] == self.travelers.active@[i as int].deep_view());
                    assert(ts[j as int] == self.travelers.active@[j as int].deep_view());
                }
                if a.location.x == b.location.x && a.location.y == b.location.y {
                    if !self.is_output_cell(a.location) {
                        match self.instructions.get(a.location) {
                            Some(ins) => {
                                if matches!(ins.command, L3XCommand::Queue) {
                                    let a_al = matches!((a.direction, ins.direction), (Direction::Up, Direction::Up) | (Direction::Down, Direction::Down) | (Direction::Left, Direction::Left) | (Direction::Right, Direction::Right));
                                    let b_al = matches!((b.direction, ins.direction), (Direction::Up, Direction::Up) | (Direction::Down, Direction::Down) | (Direction::Left, Direction::Left) | (Direction::Right, Direction::Right));
                                    if a_al == b_al {
                                        proof {
                                            assert(travelers_collide(
                                                self.grid(),
                                                self.mode,
                                                self.dims_v(),
                                                ts[i as int],
                                                ts[j as int],
                                            ));
                                        }
                                        return false;
                                    }
                                } else {
                                    proof {
                                        assert(travelers_collide(
                                            self.grid(),
                                            self.mode,
                                            self.dims_v(),
                                            ts[i as int],
                                            ts[j as int],
                                        ));
                                    }
                                    return false;
                                }
                            },
                            None => {
                                proof {
                                    assert(travelers_collide(
                                        self.grid(),
                                        self.mode,
                                        self.dims_v(),
                                        ts[i as int],
                                        ts[j as int],
                                    ));
                                }
                                return false;
                            },
                        }
                    }
                }
                j += 1;
            }
            proof {
                assert forall|x: int, y: int|
                    0 <= x < y < ts.len() && x < i + 1 implies !travelers_collide(
                    self.grid(),
                    self.mode,
                    self.dims_v(),
                    ts[x],
                    ts[y],
                ) by {
                    if x == i {
                    }
                }
            }
            i += 1;
        }
        true
    }

    /// Whether simulation may start: always in L3 mode, and only with a
    /// queue on the stream-input cell in L3X mode.
    pub open spec fn can_start(&self) -> bool {
        self.mode == MatrixMode::L3 || (self.grid().contains_key((1, 0)) && self.grid()[
            (1, 0)
        ].command is Queue)
    }

    /// Starts the simulation: seeds one traveler carrying the single input
    /// at the origin facing down, and fills the stream-input queue. Refused,
    /// with `false`, when the L3X stream-input cell holds no queue.
    pub fn init_simulation(&mut self) -> (r: bool)
        requires
            old(self).wf(),
        ensures
            final(self).wf(),
            r == old(self).can_start(),
            !r ==> *final(self) == *old(self),
            r ==> {
                &&& final(self).simulating
                &&& final(self).sim_view().travelers == old(self).sim_view().travelers.push(
                    tv(old(self).single_input@, (0, 0), Direction::Down),
                )
                &&& final(self).sim_view().queues == old(self).sim_view().queues.insert(
                    (1, 0),
                    old(self).stream_input.deep_view(),
                )
                &&& final(self).sim_view().waiting == old(self).sim_view().waiting
                &&& final(self).sim_view().output == old(self).sim_view().output
                &&& final(self).sim_view().stream == old(self).sim_view().stream
                &&& final(self).grid() == old(self).grid()
                &&& final(self).dims == old(self).dims
                &&& final(self).mode == old(self).mode
            },
    {
        let can = match self.mode {
            MatrixMode::L3 => true,
            MatrixMode::L3X => {
                match self.instructions.get(Coord { x: 1, y: 0 }) {
                    Some(ins) => matches!(ins.command, L3XCommand::Queue),
                    None => false,
                }
            },
        };
        if !can {
            return false;
        }
        let seeded = Traveler {
            value: self.single_input.duplicate(),
            location: Coord { x: 0, y: 0 },
            direction: Direction::Down,
        };
        self.travelers.active.push(seeded);
        let stream = copy_registers_vec(&self.stream_input);
        self.queues.insert(Coord { x: 1, y: 0 }, stream);
        self.simulating = true;
        proof {
            assert(final(self).sim_view().travelers =~= old(self).sim_view().travelers.push(
                tv(old(self).single_input@, (0, 0), Direction::Down),
            ));
        }
        true
    }

    /// Stops the simulation and clears all of its state: travelers, queues,
    /// the waiting list, the captured output and the output stream.
    pub fn cleanup_simulation(&mut self)
        requires
            old(self).wf(),
        ensures
            final(self).wf(),
            !final(self).simulating,
            final(self).sim_view().travelers.len() == 0,
            final(self).sim_view().queues == Map::<(int, int), Seq<Seq<(int, int)>>>::empty(),
            final(self).sim_view().waiting.len() == 0,
            final(self).sim_view().output is None,
            final(self).sim_view().stream.len() == 0,
            final(self).grid() == old(self).grid(),
            final(self).dims == old(self).dims,
            final(self).mode == old(self).mode,
            final(self).single_input@ == old(self).single_input@,
            final(self).stream_input.deep_view() == old(self).stream_input.deep_view(),
            final(self).history@ == old(self).history@,
            final(self).selecting == old(self).selecting,
    {
        self.simulating = false;
        self.travelers.clear();
        self.queues.clear();
        self.waiting_for_queue.clear();
        self.output = None;
        self.output_stream.clear();
        proof {
            assert(final(self).sim_view().travelers =~= Seq::<TravView>::empty());
            assert(final(self).sim_view().waiting =~= Seq::<(TravView, Seq<(int, int)>)>::empty());
            assert(final(self).sim_view().stream =~= Seq::<Seq<(int, int)>>::empty());
        }
    }

    /// The captured single output, if a traveler has claimed it.
    pub fn output(&self) -> (r: &Option<Registers>)
        ensures
            r == &self.output,
    {
        &self.output
    }

    /// The stream output in arrival order.
    pub fn output_stream(&self) -> (r: &Vec<Registers>)
        ensures
            r == &self.output_stream,
    {
        &self.output_stream
    }

    /// Sets the single-input value used at simulation start.
    pub fn set_single_input(&mut self, value: Registers)
        requires
            old(self).wf(),
            wf_factors(value@),
        ensures
            final(self).wf(),
            final(self).single_input@ == value@,
            *final(self) == (Matrix { single_input: value, ..*old(self) }),
    {
        self.single_input = value;
    }

    /// Sets the stream-input values used at simulation start.
    pub fn set_stream_input(&mut self, values: Vec<Registers>)
        requires
            old(self).wf(),
            forall|i: int| 0 <= i < values@.len() ==> wf_factors((#[trigger] values@[i])@),
        ensures
            final(self).wf(),
            final(self).stream_input.deep_view() == values.deep_view(),
            *final(self) == (Matrix { stream_input: values, ..*old(self) }),
    {
        self.stream_input = values;
    }
}

/// The first traveler in `v` sitting at `loc`, if any.
fn find_first_at(v: &Vec<Traveler>, loc: Coord) -> (r: Option<usize>)
    ensures
        match r {
            Some(ix) => {
                &&& ix < v@.len()
                &&& first_index_at(v.deep_view(), loc_of(loc), 0) == ix as int
                &&& v@[ix as int].location == loc
            },
            None => first_index_at(v.deep_view(), loc_of(loc), 0) == -1,
        },
{
    let n = v.len();
    let mut ix: usize = 0;
    while ix < n
        invariant
            n == v@.len(),
            ix <= n,
            first_index_at(v.deep_view(), loc_of(loc), 0) == first_index_at(
                v.deep_view(),
                loc_of(loc),
                ix as int,
            ),
        decreases n - ix,
    {
        proof {
            assert(v.deep_view()[ix as int] == v@[ix as int].deep_view());
        }
        if v[ix].location.x == loc.x && v[ix].location.y == loc.y {
            proof {
                assert(v.deep_view()[ix as int].location == loc_of(loc));
            }
            return Some(ix);
        }
        proof {
            assert(v.deep_view()[ix as int].location != loc_of(loc));
        }
        ix += 1;
    }
    None
}

impl Matrix {
    /// One tick: the collision pre-pass over the current traveler set, then
    /// the simultaneous step of every traveler (double-buffered, reading
    /// only pre-tick positions), then resolution of travelers waiting on
    /// queues. On any error the whole tick aborts and the state is exactly
    /// what it was.
    #[verifier::loop_isolation(false)]
    #[verifier::rlimit(100)]
    #[verifier::spinoff_prover]
    pub fn step(&mut self) -> (r: Result<(), StepError>)
        requires
            old(self).wf(),
        ensures
            final(self).wf(),
            ({
                let res = spec_tick(
                    old(self).grid(),
                    old(self).mode,
                    old(self).dims_v(),
                    old(self).sim_view(),
                );
                match r {
                    Ok(()) => {
                        &&& res matches Ok(st) && final(self).sim_view() == st
                        &&& final(self).grid() == old(self).grid()
                        &&& final(self).dims == old(self).dims
                        &&& final(self).mode == old(self).mode
                        &&& final(self).simulating == old(self).simulating
                        &&& final(self).single_input@ == old(self).single_input@
                        &&& final(self).stream_input.deep_view() == old(
                            self,
                        ).stream_input.deep_view()
                        &&& final(self).history@ == old(self).history@
                        &&& final(self).selecting == old(self).selecting
                    },
                    Err(e) => res == Err::<SimState, StepError>(e) && *final(self) == *old(self),
                }
            }),
    {
        let ghost grid0 = self.grid();
        let ghost m0 = self.mode;
        let ghost dv = self.dims_v();
        let ghost st0 = self.sim_view();
        let ghost ts0 = st0.travelers;
        let ghost acc0 = TickAcc {
            next: Seq::empty(),
            queues: st0.queues,
            waiting: st0.waiting,
            output: st0.output,
            stream: st0.stream,
        };
        if !self.collision_free() {
            proof {
                assert(spec_tick(grid0, m0, dv, st0) == Err::<SimState, StepError>(
                    StepError::Collision,
                ));
            }
            return Err(StepError::Collision);
        }
        let mode = self.mode;
        let dims = self.dims;
        let mut next: Vec<Traveler> = Vec::new();
        let mut wqueues = copy_queue_map(&self.queues);
        let mut wwaiting = copy_waiting(&self.waiting_for_queue);
        let mut woutput: Option<Registers> = match &self.output {
            Some(v) => Some(v.duplicate()),
            None => None,
        };
        let mut wstream = copy_registers_vec(&self.output_stream);
        proof {
            assert(next.deep_view() =~= Seq::<TravView>::empty());
            assert(woutput.deep_view() == st0.output);
        }
        let n = self.travelers.active.len();
        let mut i: usize = 0;
        while i < n
            invariant
                n == self.travelers.active@.len(),
                i <= n,
                wqueues.inv(),
                queues_wf(wqueues@),
                travs_wf(next.deep_view()),
                waiting_wf(wwaiting.deep_view()),
                match woutput {
                    Some(v) => wf_factors(v@),
                    None => true,
                },
                regs_seq_wf(wstream.deep_view()),
                tick_fold(grid0, m0, dv, ts0, 0, acc0) == tick_fold(
                    grid0,
                    m0,
                    dv,
                    ts0,
                    i as int,
                    TickAcc {
                        next: next.deep_view(),
                        queues: wqueues@,
                        waiting: wwaiting.deep_view(),
                        output: woutput.deep_view(),
                        stream: wstream.deep_view(),
                    },
                ),
            decreases n - i,
        {
            let ghost acc_pre = TickAcc {
                next: next.deep_view(),
                queues: wqueues@,
                waiting: wwaiting.deep_view(),
                output: woutput.deep_view(),
                stream: wstream.deep_view(),
            };
            let t = self.travelers.active[i].duplicate();
            let ghost tview = t.deep_view();
            proof {
                assert(ts0[i as int] == self.travelers.active@[i as int].deep_view());
                assert(tv_wf(tview));
                assert(t.wf());
            }
            if t.location.x == dims.x - 1 && t.location.y == dims.y {
                proof {
                    assert(tview.location == single_output_loc(dv));
                }
                if woutput.is_some() {
                    proof {
                        assert(step_traveler(grid0, m0, dv, tview, acc_pre)
                            == Err::<TickAcc, StepError>(StepError::OutputClaimed));
                        assert(tick_fold(grid0, m0, dv, ts0, 0, acc0) == Err::<
                            TickAcc,
                            StepError,
                        >(StepError::OutputClaimed));
                        assert(spec_tick(grid0, m0, dv, st0) == Err::<SimState, StepError>(
                            StepError::OutputClaimed,
                        ));
                    }
                    return Err(StepError::OutputClaimed);
                }
                woutput = Some(t.value);
                proof {
                    let acc2 = acc_set_output(acc_pre, tview.value);
                    assert(step_traveler(grid0, m0, dv, tview, acc_pre) == Ok::<
                        TickAcc,
                        StepError,
                    >(acc2));
                    assert(TickAcc {
                        next: next.deep_view(),
                        queues: wqueues@,
                        waiting: wwaiting.deep_view(),
                        output: woutput.deep_view(),
                        stream: wstream.deep_view(),
                    } == acc2);
                }
            } else if mode == MatrixMode::L3X && t.location.x == dims.x - 2 && t.location.y
                == dims.y {
                proof {
                    assert(tview.location == stream_output_loc(dv));
                }
                let ghost pre_stream = wstream.deep_view();
                wstream.push(t.value);
                proof {
                    assert(wstream.deep_view() =~= pre_stream.push(tview.value));
                    let acc2 = acc_push_stream(acc_pre, tview.value);
                    assert(step_traveler(grid0, m0, dv, tview, acc_pre) == Ok::<
                        TickAcc,
                        StepError,
                    >(acc2));
                    assert(TickAcc {
                        next: next.deep_view(),
                        queues: wqueues@,
                        waiting: wwaiting.deep_view(),
                        output: woutput.deep_view(),
                        stream: wstream.deep_view(),
                    } == acc2);
                }
            } else if t.location.x < 0 || t.location.y < 0 || t.location.x >= dims.x
                || t.location.y >= dims.y {
                proof {
                    assert(!in_bounds(dv, tview.location));
                    assert(step_traveler(grid0, m0, dv, tview, acc_pre) == Err::<
                        TickAcc,
                        StepError,
                    >(StepError::OffGrid));
                    assert(tick_fold(grid0, m0, dv, ts0, 0, acc0) == Err::<TickAcc, StepError>(
                        StepError::OffGrid,
                    ));
                    assert(spec_tick(grid0, m0, dv, st0) == Err::<SimState, StepError>(
                        StepError::OffGrid,
                    ));
                }
                return Err(StepError::OffGrid);
            } else {
                proof {
                    assert(in_bounds(dv, tview.location));
                }
                match self.instructions.get(t.location) {
                    None => {
                        let s = t.step();
                        proof {
                            assert(s.deep_view() == tv(
                                tview.value,
                                move_loc(tview.location, tview.direction),
                                tview.direction,
                            ));
                        }
                        match route_one(mode, dims, s, &mut next, &mut woutput, &mut wstream) {
                            Err(e) => {
                                proof {
                                    assert(step_traveler(grid0, m0, dv, tview, acc_pre) == Err::<
                                        TickAcc,
                                        StepError,
                                    >(e));
                                    assert(tick_fold(grid0, m0, dv, ts0, 0, acc0) == Err::<
                                        TickAcc,
                                        StepError,
                                    >(e));
                                    assert(spec_tick(grid0, m0, dv, st0) == Err::<
                                        SimState,
                                        StepError,
                                    >(e));
                                }
                                return Err(e);
                            },
                            Ok(()) => {
                                proof {
                                    let acc2 = TickAcc {
                                        next: next.deep_view(),
                                        queues: wqueues@,
                                        waiting: wwaiting.deep_view(),
                                        output: woutput.deep_view(),
                                        stream: wstream.deep_view(),
                                    };
                                    assert(step_traveler(grid0, m0, dv, tview, acc_pre) == Ok::<
                                        TickAcc,
                                        StepError,
                                    >(acc2));
                                }
                            },
                        }
                    },
                    Some(ins) => {
                        proof {
                            assert(grid0.contains_key(tview.location));
                            assert(grid0[tview.location] == ins.deep_view());
                            assert(iv_wf(ins.deep_view()));
                        }
                        let ins_dir = ins.direction;
                        let aligned = t.direction == ins_dir;
                        match &ins.command {
                            L3XCommand::Multiply(w) => {
                                proof {
                                    assert(ins.deep_view().command == CmdView::Multiply(w@));
                                    assert(wf_factors(w@));
                                }
                                if aligned {
                                    match t.value.try_multiply(w) {
                                        None => {
                                            proof {
                                                assert(step_traveler(grid0, m0, dv, tview, acc_pre)
                                                    == Err::<TickAcc, StepError>(
                                                    StepError::ValueOverflow,
                                                ));
                                                assert(tick_fold(grid0, m0, dv, ts0, 0, acc0)
                                                    == Err::<TickAcc, StepError>(
                                                    StepError::ValueOverflow,
                                                ));
                                                assert(spec_tick(grid0, m0, dv, st0) == Err::<
                                                    SimState,
                                                    StepError,
                                                >(StepError::ValueOverflow));
                                            }
                                            return Err(StepError::ValueOverflow);
                                        },
                                        Some(prod) => {
                                            let s = t.value(prod).direct(ins_dir);
                                            proof {
                                                assert(s.deep_view() == tv(
                                                    mul_factors(tview.value, w@),
                                                    move_loc(tview.location, ins_dir),
                                                    ins_dir,
                                                ));
                                            }
                                            match route_one(
                                                mode,
                                                dims,
                                                s,
                                                &mut next,
                                                &mut woutput,
                                                &mut wstream,
                                            ) {
                                                Err(e) => {
                                                    proof {
                                                        assert(step_traveler(
                                                            grid0,
                                                            m0,
                                                            dv,
                                                            tview,
                                                            acc_pre,
                                                        ) == Err::<TickAcc, StepError>(e));
                                                        assert(tick_fold(grid0, m0, dv, ts0, 0, acc0)
                                                            == Err::<TickAcc, StepError>(e));
                                                        assert(spec_tick(grid0, m0, dv, st0)
                                                            == Err::<SimState, StepError>(e));
                                                    }
                                                    return Err(e);
                                                },
                                                Ok(()) => {
                                                    proof {
                                                        let acc2 = TickAcc {
                                                            next: next.deep_view(),
                                                            queues: wqueues@,
                                                            waiting: wwaiting.deep_view(),
                                                            output: woutput.deep_view(),
                                                            stream: wstream.deep_view(),
                                                        };
                                                        assert(step_traveler(
                                                            grid0,
                                                            m0,
                                                            dv,
                                                            tview,
                                                            acc_pre,
                                                        ) == Ok::<TickAcc, StepError>(acc2));
                                                    }
                                                },
                                            }
                                        },
                                    }
                                } else {
                                    match t.value.try_divide(w) {
                                        Some(q) => {
                                            let s = t.value(q).direct(ins_dir);
                                            proof {
                                                assert(div_factors(tview.value, w@) == Some(
                                                    s.deep_view().value,
                                                ));
                                                assert(s.deep_view() == tv(
                                                    s.deep_view().value,
                                                    move_loc(tview.location, ins_dir),
                                                    ins_dir,
                                                ));
                                            }
                                            match route_one(
                                                mode,
                                                dims,
                                                s,
                                                &mut next,
                                                &mut woutput,
                                                &mut wstream,
                                            ) {
                                                Err(e) => {
                                                    proof {
                                                        assert(step_traveler(
                                                            grid0,
                                                            m0,
                                                            dv,
                                                            tview,
                                                            acc_pre,
                                                        ) == Err::<TickAcc, StepError>(e));
                                                        assert(tick_fold(grid0, m0, dv, ts0, 0, acc0)
                                                            == Err::<TickAcc, StepError>(e));
                                                        assert(spec_tick(grid0, m0, dv, st0)
                                                            == Err::<SimState, StepError>(e));
                                                    }
                                                    return Err(e);
                                                },
                                                Ok(()) => {
                                                    proof {
                                                        let acc2 = TickAcc {
                                                            next: next.deep_view(),
                                                            queues: wqueues@,
                                                            waiting: wwaiting.deep_view(),
                                                            output: woutput.deep_view(),
                                                            stream: wstream.deep_view(),
                                                        };
                                                        assert(step_traveler(
                                                            grid0,
                                                            m0,
                                                            dv,
                                                            tview,
                                                            acc_pre,
                                                        ) == Ok::<TickAcc, StepError>(acc2));
                                                    }
                                                },
                                            }
                                        },
                                        None => {
                                            let s = t.direct(ins_dir.opposite());
                                            proof {
                                                assert(div_factors(tview.value, w@) is None);
                                                assert(s.deep_view() == tv(
                                                    tview.value,
                                                    move_loc(
                                                        tview.location,
                                                        ins_dir.spec_opposite(),
                                                    ),
                                                    ins_dir.spec_opposite(),
                                                ));
                                            }
                                            match route_one(
                                                mode,
                                                dims,
                                                s,
                                                &mut next,
                                                &mut woutput,
                                                &mut wstream,
                                            ) {
                                                Err(e) => {
                                                    proof {
                                                        assert(step_traveler(
                                                            grid0,
                                                            m0,
                                                            dv,
                                                            tview,
                                                            acc_pre,
                                                        ) == Err::<TickAcc, StepError>(e));
                                                        assert(tick_fold(grid0, m0, dv, ts0, 0, acc0)
                                                            == Err::<TickAcc, StepError>(e));
                                                        assert(spec_tick(grid0, m0, dv, st0)
                                                            == Err::<SimState, StepError>(e));
                                                    }
                                                    return Err(e);
                                                },
                                                Ok(()) => {
                                                    proof {
                                                        let acc2 = TickAcc {
                                                            next: next.deep_view(),
                                                            queues: wqueues@,
                                                            waiting: wwaiting.deep_view(),
                                                            output: woutput.deep_view(),
                                                            stream: wstream.deep_view(),
                                                        };
                                                        assert(step_traveler(
                                                            grid0,
                                                            m0,
                                                            dv,
                                                            tview,
                                                            acc_pre,
                                                        ) == Ok::<TickAcc, StepError>(acc2));
                                                    }
                                                },
                                            }
                                        },
                                    }
                                }
                            },
                            L3XCommand::Duplicate => {
                                let s1 = t.duplicate().direct(ins_dir);
                                proof {
                                    assert(s1.deep_view() == tv(
                                        tview.value,
                                        move_loc(tview.location, ins_dir),
                                        ins_dir,
                                    ));
                                }
                                match route_one(mode, dims, s1, &mut next, &mut woutput, &mut wstream) {
                                    Err(e) => {
                                        proof {
                                            assert(step_traveler(grid0, m0, dv, tview, acc_pre)
                                                == Err::<TickAcc, StepError>(e));
                                            assert(tick_fold(grid0, m0, dv, ts0, 0, acc0) == Err::<
                                                TickAcc,
                                                StepError,
                                            >(e));
                                            assert(spec_tick(grid0, m0, dv, st0) == Err::<
                                                SimState,
                                                StepError,
                                            >(e));
                                        }
                                        return Err(e);
                                    },
                                    Ok(()) => {},
                                }
                                let ghost acc_mid = TickAcc {
                                    next: next.deep_view(),
                                    queues: wqueues@,
                                    waiting: wwaiting.deep_view(),
                                    output: woutput.deep_view(),
                                    stream: wstream.deep_view(),
                                };
                                let s2 = t.direct(ins_dir.opposite());
                                proof {
                                    assert(s2.deep_view() == tv(
                                        tview.value,
                                        move_loc(tview.location, ins_dir.spec_opposite()),
                                        ins_dir.spec_opposite(),
                                    ));
                                }
                                match route_one(mode, dims, s2, &mut next, &mut woutput, &mut wstream) {
                                    Err(e) => {
                                        proof {
                                            assert(step_traveler(grid0, m0, dv, tview, acc_pre)
                                                == Err::<TickAcc, StepError>(e));
                                            assert(tick_fold(grid0, m0, dv, ts0, 0, acc0) == Err::<
                                                TickAcc,
                                                StepError,
                                            >(e));
                                            assert(spec_tick(grid0, m0, dv, st0) == Err::<
                                                SimState,
                                                StepError,
                                            >(e));
                                        }
                                        return Err(e);
                                    },
                                    Ok(()) => {
                                        proof {
                                            let acc2 = TickAcc {
                                                next: next.deep_view(),
                                                queues: wqueues@,
                                                waiting: wwaiting.deep_view(),
                                                output: woutput.deep_view(),
                                                stream: wstream.deep_view(),
                                            };
                                            assert(step_traveler(grid0, m0, dv, tview, acc_pre)
                                                == Ok::<TickAcc, StepError>(acc2));
                                        }
                                    },
                                }
                            },
                            L3XCommand::Annihilate => {
                                let s = t.value(Registers::one()).direct(ins_dir);
                                proof {
                                    assert(s.deep_view() == tv(
                                        Seq::<(int, int)>::empty(),
                                        move_loc(tview.location, ins_dir),
                                        ins_dir,
                                    ));
                                }
                                match route_one(mode, dims, s, &mut next, &mut woutput, &mut wstream) {
                                    Err(e) => {
                                        proof {
                                            assert(step_traveler(grid0, m0, dv, tview, acc_pre)
                                                == Err::<TickAcc, StepError>(e));
                                            assert(tick_fold(grid0, m0, dv, ts0, 0, acc0) == Err::<
                                                TickAcc,
                                                StepError,
                                            >(e));
                                            assert(spec_tick(grid0, m0, dv, st0) == Err::<
                                                SimState,
                                                StepError,
                                            >(e));
                                        }
                                        return Err(e);
                                    },
                                    Ok(()) => {
                                        proof {
                                            let acc2 = TickAcc {
                                                next: next.deep_view(),
                                                queues: wqueues@,
                                                waiting: wwaiting.deep_view(),
                                                output: woutput.deep_view(),
                                                stream: wstream.deep_view(),
                                            };
                                            assert(step_traveler(grid0, m0, dv, tview, acc_pre)
                                                == Ok::<TickAcc, StepError>(acc2));
                                        }
                                    },
                                }
                            },
                            L3XCommand::Queue => {
                                let loc = t.location;
                                let ghost lv = loc_of(loc);
                                if aligned {
                                    match wqueues.remove(loc) {
                                        Some(mut qv) => {
                                            let ghost qv0 = qv.deep_view();
                                            proof {
                                                assert(qv0 == acc_pre.queues[lv]);
                                            }
                                            qv.push(t.value);
                                            proof {
                                                assert(qv.deep_view() =~= qv0.push(tview.value));
                                            }
                                            wqueues.insert(loc, qv);
                                            proof {
                                                assert(wqueues@ =~= acc_pre.queues.insert(
                                                    lv,
                                                    qv0.push(tview.value),
                                                ));
                                                let acc2 = acc_set_queues(
                                                    acc_pre,
                                                    acc_pre.queues.insert(lv, qv0.push(tview.value)),
                                                );
                                                assert(step_traveler(grid0, m0, dv, tview, acc_pre)
                                                    == Ok::<TickAcc, StepError>(acc2));
                                                assert(TickAcc {
                                                    next: next.deep_view(),
                                                    queues: wqueues@,
                                                    waiting: wwaiting.deep_view(),
                                                    output: woutput.deep_view(),
                                                    stream: wstream.deep_view(),
                                                } == acc2);
                                                assert(queues_wf(wqueues@));
                                            }
                                        },
                                        None => {
                                            let mut qv: Vec<Registers> = Vec::new();
                                            qv.push(t.value);
                                            proof {
                                                assert(qv.deep_view() =~= Seq::<
                                                    Seq<(int, int)>,
                                                >::empty().push(tview.value));
                                            }
                                            wqueues.insert(loc, qv);
                                            proof {
                                                let acc2 = acc_set_queues(
                                                    acc_pre,
                                                    acc_pre.queues.insert(
                                                        lv,
                                                        Seq::<Seq<(int, int)>>::empty().push(
                                                            tview.value,
                                                        ),
                                                    ),
                                                );
                                                assert(step_traveler(grid0, m0, dv, tview, acc_pre)
                                                    == Ok::<TickAcc, StepError>(acc2));
                                                assert(TickAcc {
                                                    next: next.deep_view(),
                                                    queues: wqueues@,
                                                    waiting: wwaiting.deep_view(),
                                                    output: woutput.deep_view(),
                                                    stream: wstream.deep_view(),
                                                } == acc2);
                                                assert(queues_wf(wqueues@));
                                            }
                                        },
                                    }
                                } else {
                                    match wqueues.remove(loc) {
                                        Some(mut qv) => {
                                            if qv.len() > 0 {
                                                let ghost qv0 = qv.deep_view();
                                                proof {
                                                    assert(qv0 == acc_pre.queues[lv]);
                                                }
                                                let front = qv.remove(0);
                                                proof {
                                                    assert(front@ == qv0[0]);
                                                    assert(qv.deep_view() =~= qv0.drop_first());
                                                }
                                                wqueues.insert(loc, qv);
                                                proof {
                                                    assert(wqueues@ =~= acc_pre.queues.insert(
                                                        lv,
                                                        qv0.drop_first(),
                                                    ));
                                                }
                                                match t.value.try_multiply(&front) {
                                                    None => {
                                                        proof {
                                                            assert(step_traveler(
                                                                grid0,
                                                                m0,
                                                                dv,
                                                                tview,
                                                                acc_pre,
                                                            ) == Err::<TickAcc, StepError>(
                                                                StepError::ValueOverflow,
                                                            ));
                                                            assert(tick_fold(grid0, m0, dv, ts0, 0, acc0)
                                                                == Err::<TickAcc, StepError>(
                                                                StepError::ValueOverflow,
                                                            ));
                                                            assert(spec_tick(grid0, m0, dv, st0)
                                                                == Err::<SimState, StepError>(
                                                                StepError::ValueOverflow,
                                                            ));
                                                        }
                                                        return Err(StepError::ValueOverflow);
                                                    },
                                                    Some(mv) => {
                                                        let s = (Traveler {
                                                            value: mv,
                                                            location: loc,
                                                            direction: ins_dir,
                                                        }).step();
                                                        proof {
                                                            assert(s.deep_view() == tv(
                                                                mul_factors(tview.value, qv0[0]),
                                                                move_loc(lv, ins_dir),
                                                                ins_dir,
                                                            ));
                                                        }
                                                        let ghost acc_mid = acc_set_queues(
                                                            acc_pre,
                                                            acc_pre.queues.insert(
                                                                lv,
                                                                qv0.drop_first(),
                                                            ),
                                                        );
                                                        match route_one(
                                                            mode,
                                                            dims,
                                                            s,
                                                            &mut next,
                                                            &mut woutput,
                                                            &mut wstream,
                                                        ) {
                                                            Err(e) => {
                                                                proof {
                                                                    assert(step_traveler(
                                                                        grid0,
                                                                        m0,
                                                                        dv,
                                                                        tview,
                                                                        acc_pre,
                                                                    ) == Err::<TickAcc, StepError>(
                                                                        e,
                                                                    ));
                                                                    assert(tick_fold(
                                                                        grid0,
                                                                        m0,
                                                                        dv,
                                                                        ts0,
                                                                        0,
                                                                        acc0,
                                                                    ) == Err::<TickAcc, StepError>(
                                                                        e,
                                                                    ));
                                                                    assert(spec_tick(grid0, m0, dv, st0)
                                                                        == Err::<
                                                                        SimState,
                                                                        StepError,
                                                                    >(e));
                                                                }
                                                                return Err(e);
                                                            },
                                                            Ok(()) => {
                                                                proof {
                                                                    let acc2 = TickAcc {
                                                                        next: next.deep_view(),
                                                                        queues: wqueues@,
                                                                        waiting: wwaiting.deep_view(),
                                                                        output: woutput.deep_view(),
                                                                        stream: wstream.deep_view(),
                                                                    };
                                                                    assert(step_traveler(
                                                                        grid0,
                                                                        m0,
                                                                        dv,
                                                                        tview,
                                                                        acc_pre,
                                                                    ) == Ok::<TickAcc, StepError>(
                                                                        acc2,
                                                                    ));
                                                                }
                                                            },
                                                        }
                                                    },
                                                }
                                            } else {
                                                wqueues.insert(loc, qv);
                                                proof {
                                                    assert(wqueues@ =~= acc_pre.queues);
                                                }
                                                wwaiting.push(
                                                    (
                                                        Traveler {
                                                            value: t.value,
                                                            location: loc,
                                                            direction: ins_dir,
                                                        },
                                                        Registers::one(),
                                                    ),
                                                );
                                                proof {
                                                    assert(wwaiting.deep_view()
                                                        =~= acc_pre.waiting.push(
                                                        (
                                                            tv(tview.value, lv, ins_dir),
                                                            Seq::<(int, int)>::empty(),
                                                        ),
                                                    ));
                                                    let acc2 = acc_push_waiting(
                                                        acc_pre,
                                                        (
                                                            tv(tview.value, lv, ins_dir),
                                                            Seq::<(int, int)>::empty(),
                                                        ),
                                                    );
                                                    assert(step_traveler(grid0, m0, dv, tview, acc_pre)
                                                        == Ok::<TickAcc, StepError>(acc2));
                                                    assert(TickAcc {
                                                        next: next.deep_view(),
                                                        queues: wqueues@,
                                                        waiting: wwaiting.deep_view(),
                                                        output: woutput.deep_view(),
                                                        stream: wstream.deep_view(),
                                                    } == acc2);
                                                }
                                            }
                                        },
                                        None => {
                                            wwaiting.push(
                                                (
                                                    Traveler {
                                                        value: t.value,
                                                        location: loc,
                                                        direction: ins_dir,
                                                    },
                                                    Registers::one(),
                                                ),
                                            );
                                            proof {
                                                assert(wwaiting.deep_view() =~= acc_pre.waiting.push(
                                                    (
                                                        tv(tview.value, lv, ins_dir),
                                                        Seq::<(int, int)>::empty(),
                                                    ),
                                                ));
                                                let acc2 = acc_push_waiting(
                                                    acc_pre,
                                                    (
                                                        tv(tview.value, lv, ins_dir),
                                                        Seq::<(int, int)>::empty(),
                                                    ),
                                                );
                                                assert(step_traveler(grid0, m0, dv, tview, acc_pre)
                                                    == Ok::<TickAcc, StepError>(acc2));
                                                assert(TickAcc {
                                                    next: next.deep_view(),
                                                    queues: wqueues@,
                                                    waiting: wwaiting.deep_view(),
                                                    output: woutput.deep_view(),
                                                    stream: wstream.deep_view(),
                                                } == acc2);
                                            }
                                        },
                                    }
                                }
                            },
                        }
                    },
                }
            }
            i += 1;
        }
        let ghost acc_end = TickAcc {
            next: next.deep_view(),
            queues: wqueues@,
            waiting: wwaiting.deep_view(),
            output: woutput.deep_view(),
            stream: wstream.deep_view(),
        };
        proof {
            assert(tick_fold(grid0, m0, dv, ts0, n as int, acc_end) == Ok::<TickAcc, StepError>(
                acc_end,
            ));
            assert(tick_fold(grid0, m0, dv, ts0, 0, acc0) == Ok::<TickAcc, StepError>(acc_end));
        }
        // resolve the waiting-for-queue list against the new traveler set
        let mut kept: Vec<(Traveler, Registers)> = Vec::new();
        let mut admitted: Vec<Traveler> = Vec::new();
        let wn = wwaiting.len();
        let mut j: usize = 0;
        proof {
            assert(kept.deep_view() =~= Seq::<(TravView, Seq<(int, int)>)>::empty());
            assert(admitted.deep_view() =~= Seq::<TravView>::empty());
        }
        while j < wn
            invariant
                j <= wn,
                wn == wwaiting@.len(),
                travs_wf(next.deep_view()),
                travs_wf(admitted.deep_view()),
                waiting_wf(kept.deep_view()),
                resolve_fold(
                    acc_end.waiting,
                    0,
                    acc_end.next,
                    Seq::empty(),
                    Seq::empty(),
                ) == resolve_fold(
                    acc_end.waiting,
                    j as int,
                    next.deep_view(),
                    kept.deep_view(),
                    admitted.deep_view(),
                ),
            decreases wn - j,
        {
            let w = wwaiting[j].0.duplicate();
            let a = wwaiting[j].1.duplicate();
            let ghost wv = w.deep_view();
            proof {
                assert(acc_end.waiting[j as int] == (
                    wwaiting@[j as int].0.deep_view(),
                    wwaiting@[j as int].1.deep_view(),
                ));
                assert(wv == acc_end.waiting[j as int].0);
                assert(a@ == acc_end.waiting[j as int].1);
                assert(tv_near(wv));
                assert(w.wf());
            }
            let ghost pre_next = next.deep_view();
            match find_first_at(&next, w.location) {
                Some(ixu) => {
                    let victim = next.swap_remove(ixu);
                    proof {
                        assert(victim.deep_view() == pre_next[ixu as int]);
                        assert(next.deep_view() =~= pre_next.update(
                            ixu as int,
                            pre_next.last(),
                        ).drop_last());
                        assert(tv_wf(pre_next[ixu as int]));
                    }
                    match w.value.try_multiply(&victim.value) {
                        None => {
                            proof {
                                assert(resolve_fold(
                                    acc_end.waiting,
                                    0,
                                    acc_end.next,
                                    Seq::empty(),
                                    Seq::empty(),
                                ) == Err::<
                                    (Seq<TravView>, Seq<(TravView, Seq<(int, int)>)>, Seq<TravView>),
                                    StepError,
                                >(StepError::ValueOverflow));
                                assert(spec_tick(grid0, m0, dv, st0) == Err::<SimState, StepError>(
                                    StepError::ValueOverflow,
                                ));
                            }
                            return Err(StepError::ValueOverflow);
                        },
                        Some(mv) => {
                            let s = (Traveler {
                                value: mv,
                                location: w.location,
                                direction: w.direction,
                            }).step();
                            let ghost pre_adm = admitted.deep_view();
                            admitted.push(s);
                            proof {
                                assert(s.deep_view() == tv(
                                    mul_factors(wv.value, pre_next[ixu as int].value),
                                    move_loc(wv.location, wv.direction),
                                    wv.direction,
                                ));
                                assert(admitted.deep_view() =~= pre_adm.push(s.deep_view()));
                            }
                        },
                    }
                },
                None => {
                    let ghost pre_kept = kept.deep_view();
                    kept.push((w, a));
                    proof {
                        assert(kept.deep_view() =~= pre_kept.push((wv, a@)));
                    }
                },
            }
            j += 1;
        }
        let ghost trip = (next.deep_view(), kept.deep_view(), admitted.deep_view());
        proof {
            assert(resolve_fold(acc_end.waiting, wn as int, trip.0, trip.1, trip.2) == Ok::<
                (Seq<TravView>, Seq<(TravView, Seq<(int, int)>)>, Seq<TravView>),
                StepError,
            >(trip));
            assert(resolve_fold(acc_end.waiting, 0, acc_end.next, Seq::empty(), Seq::empty())
                == Ok::<
                (Seq<TravView>, Seq<(TravView, Seq<(int, int)>)>, Seq<TravView>),
                StepError,
            >(trip));
        }
        next.append(&mut admitted);
        proof {
            assert(next.deep_view() =~= trip.0 + trip.2);
        }
        // commit the tick
        self.travelers.inactive = next;
        self.travelers.try_swap();
        self.queues = wqueues;
        self.waiting_for_queue = kept;
        self.output = woutput;
        self.output_stream = wstream;
        proof {
            let st1 = SimState {
                travelers: trip.0 + trip.2,
                queues: acc_end.queues,
                waiting: trip.1,
                output: acc_end.output,
                stream: acc_end.stream,
            };
            assert(spec_tick(grid0, m0, dv, st0) == Ok::<SimState, StepError>(st1));
            assert(self.sim_view() == st1);
            assert(travs_wf(self.travelers.active.deep_view()));
        }
        Ok(())
    }
}

/// Stepping a traveler against a duplicator yields exactly two travelers,
/// both carrying the original value, leaving by the two major ports — as
/// long as neither port lands on an output port of the grid.
pub proof fn lemma_duplicate_conservation(
    grid: Map<(int, int), InstrView>,
    mode: MatrixMode,
    dims: (int, int),
    t: TravView,
    acc: TickAcc,
)
    requires
        !is_output_loc(mode, dims, t.location),
        in_bounds(dims, t.location),
        grid.contains_key(t.location),
        grid[t.location].command is Duplicate,
        !is_output_loc(mode, dims, move_loc(t.location, grid[t.location].direction)),
        !is_output_loc(
            mode,
            dims,
            move_loc(t.location, grid[t.location].direction.spec_opposite()),
        ),
    ensures
        step_traveler(grid, mode, dims, t, acc) matches Ok(a2) && a2.next == acc.next + seq![
            tv(
                t.value,
                move_loc(t.location, grid[t.location].direction),
                grid[t.location].direction,
            ),
            tv(
                t.value,
                move_loc(t.location, grid[t.location].direction.spec_opposite()),
                grid[t.location].direction.spec_opposite(),
            ),
        ] && a2.queues == acc.queues && a2.waiting == acc.waiting && a2.output == acc.output
            && a2.stream == acc.stream,
{
    let d = grid[t.location].direction;
    let s1 = tv(t.value, move_loc(t.location, d), d);
    let s2 = tv(t.value, move_loc(t.location, d.spec_opposite()), d.spec_opposite());
    assert(acc.next.push(s1).push(s2) =~= acc.next + seq![s1, s2]);
}

/// The single output is exclusive: a traveler reaching it while it is
/// already claimed is an error, never a silent overwrite.
pub proof fn lemma_single_output_exclusive(
    grid: Map<(int, int), InstrView>,
    mode: MatrixMode,
    dims: (int, int),
    t: TravView,
    acc: TickAcc,
)
    requires
        t.location == single_output_loc(dims),
        acc.output is Some,
    ensures
        step_traveler(grid, mode, dims, t, acc) == Err::<TickAcc, StepError>(
            StepError::OutputClaimed,
        ),
{
}

/// A deep copy of the waiting-for-queue list.
fn copy_waiting(w: &Vec<(Traveler, Registers)>) -> (r: Vec<(Traveler, Registers)>)
    ensures
        r.deep_view() == w.deep_view(),
        r@.len() == w@.len(),
{
    let mut out: Vec<(Traveler, Registers)> = Vec::new();
    let n = w.len();
    let mut i: usize = 0;
    while i < n
        invariant
            n == w@.len(),
            i <= n,
            out@.len() == i,
            forall|k: int|
                0 <= k < i ==> (#[trigger] out@[k]).0.deep_view() == w@[k].0.deep_view()
                    && out@[k].1@ == w@[k].1@,
        decreases n - i,
    {
        let t = w[i].0.duplicate();
        let a = w[i].1.duplicate();
        out.push((t, a));
        i += 1;
    }
    proof {
        assert(out.deep_view() =~= w.deep_view());
    }
    out
}

/// A deep copy of the per-cell queues.
fn copy_queue_map(q: &CoordMap<Vec<Registers>>) -> (r: CoordMap<Vec<Registers>>)
    requires
        q.inv(),
    ensures
        r.inv(),
        r@ == q@,
{
    let mut out: CoordMap<Vec<Registers>> = CoordMap::new();
    let n = q.entries.len();
    let mut i: usize = 0;
    proof {
        assert(crate::coord_map::entries_deep(q.entries@).take(0) =~= Seq::<(
            (int, int),
            Seq<Seq<(int, int)>>,
        )>::empty());
    }
    while i < n
        invariant
            q.inv(),
            n == q.entries@.len(),
            i <= n,
            out.inv(),
            out@ == crate::coord_map::assoc_map(
                crate::coord_map::entries_deep(q.entries@).take(i as int),
            ),
        decreases n - i,
    {
        let c = q.entries[i].0;
        let v = copy_registers_vec(&q.entries[i].1);
        proof {
            assert(v.deep_view() == q.entries@[i as int].1.deep_view());
        }
        out.insert(c, v);
        proof {
            let s = crate::coord_map::entries_deep(q.entries@);
            assert(s.take(i + 1 as int).drop_last() =~= s.take(i as int));
            assert(s.take(i + 1 as int).last() == s[i as int]);
            assert(s[i as int] == (
                loc_of(q.entries@[i as int].0),
                q.entries@[i as int].1.deep_view(),
            ));
            assert(crate::coord_map::assoc_map(s.take(i + 1 as int)) == crate::coord_map::assoc_map(
                s.take(i as int),
            ).insert(s[i as int].0, s[i as int].1));
        }
        i += 1;
    }
    proof {
        assert(crate::coord_map::entries_deep(q.entries@).take(n as int)
            =~= crate::coord_map::entries_deep(q.entries@));
    }
    out
}

/// Sends a freshly moved traveler where it belongs: the single-output slot,
/// the output stream, or the next generation.
fn route_one(
    mode: MatrixMode,
    dims: Coord,
    s: Traveler,
    next: &mut Vec<Traveler>,
    output_slot: &mut Option<Registers>,
    stream_out: &mut Vec<Registers>,
) -> (r: Result<(), StepError>)
    requires
        s.wf(),
        1 <= dims.x <= MAX_DIM,
        1 <= dims.y <= MAX_DIM,
        travs_wf(old(next).deep_view()),
        match *old(output_slot) {
            Some(v) => wf_factors(v@),
            None => true,
        },
        regs_seq_wf(old(stream_out).deep_view()),
    ensures
        travs_wf(final(next).deep_view()),
        match *final(output_slot) {
            Some(v) => wf_factors(v@),
            None => true,
        },
        regs_seq_wf(final(stream_out).deep_view()),
        match r {
            Ok(()) => forall|
                qs: Map<(int, int), Seq<Seq<(int, int)>>>,
                wt: Seq<(TravView, Seq<(int, int)>)>,
            |
                #[trigger] route_traveler(
                    mode,
                    loc_of(dims),
                    s.deep_view(),
                    TickAcc {
                        next: old(next).deep_view(),
                        queues: qs,
                        waiting: wt,
                        output: old(output_slot).deep_view(),
                        stream: old(stream_out).deep_view(),
                    },
                ) == Ok::<TickAcc, StepError>(
                    TickAcc {
                        next: final(next).deep_view(),
                        queues: qs,
                        waiting: wt,
                        output: final(output_slot).deep_view(),
                        stream: final(stream_out).deep_view(),
                    },
                ),
            Err(e) => {
                &&& e == StepError::OutputClaimed
                &&& final(next)@ == old(next)@
                &&& *final(output_slot) == *old(output_slot)
                &&& final(stream_out)@ == old(stream_out)@
                &&& forall|
                    qs: Map<(int, int), Seq<Seq<(int, int)>>>,
                    wt: Seq<(TravView, Seq<(int, int)>)>,
                |
                    #[trigger] route_traveler(
                        mode,
                        loc_of(dims),
                        s.deep_view(),
                        TickAcc {
                            next: old(next).deep_view(),
                            queues: qs,
                            waiting: wt,
                            output: old(output_slot).deep_view(),
                            stream: old(stream_out).deep_view(),
                        },
                    ) == Err::<TickAcc, StepError>(e)
            },
        },
{
    if s.location.x == dims.x - 1 && s.location.y == dims.y {
        if output_slot.is_some() {
            return Err(StepError::OutputClaimed);
        }
        *output_slot = Some(s.value);
        Ok(())
    } else if mode == MatrixMode::L3X && s.location.x == dims.x - 2 && s.location.y == dims.y {
        let ghost pre = stream_out.deep_view();
        stream_out.push(s.value);
        proof {
            assert(stream_out.deep_view() =~= pre.push(s.deep_view().value));
        }
        Ok(())
    } else {
        let ghost pre = next.deep_view();
        next.push(s);
        proof {
            assert(next.deep_view() =~= pre.push(s.deep_view()));
        }
        Ok(())
    }
}

/// A deep copy of a vector of register values.
pub fn copy_registers_vec(v: &Vec<Registers>) -> (r: Vec<Registers>)
    ensures
        r.deep_view() == v.deep_view(),
        r@.len() == v@.len(),
{
    let mut out: Vec<Registers> = Vec::new();
    let n = v.len();
    let mut i: usize = 0;
    while i < n
        invariant
            n == v@.len(),
            i <= n,
            out@.len() == i,
            forall|k: int| 0 <= k < i ==> (#[trigger] out@[k])@ == v@[k]@,
        decreases n - i,
    {
        out.push(v[i].duplicate());
        i += 1;
    }
    proof {
        assert(out.deep_view() =~= v.deep_view());
    }
    out
}

} // verus!
