//! Grid editing: selection-scoped structural operations with one-level
//! self-describing inverses pushed onto a linear undo stack.

use vstd::prelude::*;

use crate::coord_map::CoordMap;
use crate::coords::loc_of;
use crate::coords::Coord;
use crate::coords::MAX_DIM;
use crate::direction::Direction;
use crate::l3x::InstrView;
use crate::l3x::L3XCommand;
use crate::l3x::L3X;
use crate::matrix::action_wf;
use crate::matrix::actions_wf;
use crate::matrix::data_wf;
use crate::matrix::grid_wf;
use crate::matrix::iv_wf;
use crate::matrix::sel_wf;
use crate::matrix::L3XData;
use crate::matrix::Matrix;
use crate::matrix::MatrixAction;
use crate::matrix::MatrixMode;
use crate::matrix::Selection;

verus! {

/// How a cell's direction is adjusted when an editing operation moves it.
#[derive(Debug, PartialEq, Eq, Structural, Clone, Copy)]
pub enum DirMap {
    Keep,
    FlipH,
    FlipV,
    Diag,
}

pub open spec fn dir_mapped(kind: DirMap, d: Direction) -> Direction {
    match kind {
        DirMap::Keep => d,
        DirMap::FlipH => d.spec_reflect_h(),
        DirMap::FlipV => d.spec_reflect_v(),
        DirMap::Diag => d.spec_transpose(),
    }
}

pub open spec fn iv_mapped(kind: DirMap, iv: InstrView) -> InstrView {
    InstrView { direction: dir_mapped(kind, iv.direction), command: iv.command }
}

/// The effect of exchanging two cells, adjusting both directions: exactly
/// the remove-remove-insert-insert dance the editing operations are built
/// from.
pub open spec fn swap_map_spec(
    g: Map<(int, int), InstrView>,
    k1: (int, int),
    k2: (int, int),
    kind: DirMap,
) -> Map<(int, int), InstrView> {
    let e1 = if g.contains_key(k1) {
        Some(g[k1])
    } else {
        None
    };
    let e2 = if g.contains_key(k2) {
        Some(g[k2])
    } else {
        None
    };
    let g1 = g.remove(k1).remove(k2);
    let g2 = match e1 {
        Some(v) => g1.insert(k2, iv_mapped(kind, v)),
        None => g1,
    };
    match e2 {
        Some(v) => g2.insert(k1, iv_mapped(kind, v)),
        None => g2,
    }
}

/// One row of a region swap, cell by cell from the left.
pub open spec fn swap_row_spec(
    g: Map<(int, int), InstrView>,
    s: (int, int),
    t: (int, int),
    i: int,
    w: int,
    j: int,
) -> Map<(int, int), InstrView>
    decreases w - j,
{
    if j < 0 || j >= w {
        g
    } else {
        swap_row_spec(
            swap_map_spec(g, (s.0 + j, s.1 + i), (t.0 + j, t.1 + i), DirMap::Keep),
            s,
            t,
            i,
            w,
            j + 1,
        )
    }
}

pub open spec fn swap_rows_spec(
    g: Map<(int, int), InstrView>,
    s: (int, int),
    t: (int, int),
    w: int,
    h: int,
    i: int,
) -> Map<(int, int), InstrView>
    decreases h - i,
{
    if i < 0 || i >= h {
        g
    } else {
        swap_rows_spec(swap_row_spec(g, s, t, i, w, 0), s, t, w, h, i + 1)
    }
}

/// One row of a horizontal reflection: mirrored pairs swap, directions flip.
pub open spec fn reflect_h_row_spec(
    g: Map<(int, int), InstrView>,
    s: (int, int),
    w: int,
    i: int,
    j: int,
) -> Map<(int, int), InstrView>
    decreases (w + 1) / 2 - j,
{
    if j < 0 || j >= (w + 1) / 2 {
        g
    } else {
        reflect_h_row_spec(
            swap_map_spec(g, (s.0 + j, s.1 + i), (s.0 + (w - j - 1), s.1 + i), DirMap::FlipH),
            s,
            w,
            i,
            j + 1,
        )
    }
}

pub open spec fn reflect_h_rows_spec(
    g: Map<(int, int), InstrView>,
    s: (int, int),
    w: int,
    h: int,
    i: int,
) -> Map<(int, int), InstrView>
    decreases h - i,
{
    if i < 0 || i >= h {
        g
    } else {
        reflect_h_rows_spec(reflect_h_row_spec(g, s, w, i, 0), s, w, h, i + 1)
    }
}

/// One column pass of a vertical reflection.
pub open spec fn reflect_v_row_spec(
    g: Map<(int, int), InstrView>,
    s: (int, int),
    w: int,
    h: int,
    i: int,
    j: int,
) -> Map<(int, int), InstrView>
    decreases w - j,
{
    if j < 0 || j >= w {
        g
    } else {
        reflect_v_row_spec(
            swap_map_spec(g, (s.0 + j, s.1 + i), (s.0 + j, s.1 + (h - i - 1)), DirMap::FlipV),
            s,
            w,
            h,
            i,
            j + 1,
        )
    }
}

pub open spec fn reflect_v_rows_spec(
    g: Map<(int, int), InstrView>,
    s: (int, int),
    w: int,
    h: int,
    i: int,
) -> Map<(int, int), InstrView>
    decreases (h + 1) / 2 - i,
{
    if i < 0 || i >= (h + 1) / 2 {
        g
    } else {
        reflect_v_rows_spec(reflect_v_row_spec(g, s, w, h, i, 0), s, w, h, i + 1)
    }
}

/// One row of a diagonal transposition of a square region.
pub open spec fn transpose_row_spec(
    g: Map<(int, int), InstrView>,
    s: (int, int),
    side: int,
    i: int,
    j: int,
) -> Map<(int, int), InstrView>
    decreases side - j,
{
    if j < i || j >= side {
        g
    } else {
        transpose_row_spec(
            swap_map_spec(g, (s.0 + j, s.1 + i), (s.0 + i, s.1 + j), DirMap::Diag),
            s,
            side,
            i,
            j + 1,
        )
    }
}

pub open spec fn transpose_rows_spec(
    g: Map<(int, int), InstrView>,
    s: (int, int),
    side: int,
    i: int,
) -> Map<(int, int), InstrView>
    decreases side - i,
{
    if i < 0 || i >= side {
        g
    } else {
        transpose_rows_spec(transpose_row_spec(g, s, side, i, i), s, side, i + 1)
    }
}

/// One row of a paste: filled cells overwrite, empty cells erase.
pub open spec fn paste_row_spec(
    g: Map<(int, int), InstrView>,
    t: (int, int),
    row: Seq<Option<InstrView>>,
    i: int,
    j: int,
) -> Map<(int, int), InstrView>
    decreases row.len() - j,
{
    if j < 0 || j >= row.len() {
        g
    } else {
        let g2 = match row[j] {
            Some(v) => g.insert((t.0 + j, t.1 + i), v),
            None => g.remove((t.0 + j, t.1 + i)),
        };
        paste_row_spec(g2, t, row, i, j + 1)
    }
}

pub open spec fn paste_rows_spec(
    g: Map<(int, int), InstrView>,
    t: (int, int),
    rows: Seq<Seq<Option<InstrView>>>,
    i: int,
) -> Map<(int, int), InstrView>
    decreases rows.len() - i,
{
    if i < 0 || i >= rows.len() {
        g
    } else {
        paste_rows_spec(paste_row_spec(g, t, rows[i], i, 0), t, rows, i + 1)
    }
}

/// One row of a snip: the region's cells are removed.
pub open spec fn snip_row_spec(
    g: Map<(int, int), InstrView>,
    s: (int, int),
    i: int,
    w: int,
    j: int,
) -> Map<(int, int), InstrView>
    decreases w - j,
{
    if j < 0 || j >= w {
        g
    } else {
        snip_row_spec(g.remove((s.0 + j, s.1 + i)), s, i, w, j + 1)
    }
}

pub open spec fn snip_rows_spec(
    g: Map<(int, int), InstrView>,
    s: (int, int),
    w: int,
    h: int,
    i: int,
) -> Map<(int, int), InstrView>
    decreases h - i,
{
    if i < 0 || i >= h {
        g
    } else {
        snip_rows_spec(snip_row_spec(g, s, i, w, 0), s, w, h, i + 1)
    }
}

/// What one editing operation does to the grid.
pub open spec fn action_grid_effect(
    g: Map<(int, int), InstrView>,
    a: &MatrixAction,
) -> Map<(int, int), InstrView> {
    match a {
        MatrixAction::Resize(_) => g,
        MatrixAction::Swap(sel, t) => swap_rows_spec(
            g,
            loc_of(sel.starts),
            loc_of(*t),
            sel.ends.x - sel.starts.x + 1,
            sel.ends.y - sel.starts.y + 1,
            0,
        ),
        MatrixAction::ReflectH(sel) => reflect_h_rows_spec(
            g,
            loc_of(sel.starts),
            sel.ends.x - sel.starts.x + 1,
            sel.ends.y - sel.starts.y + 1,
            0,
        ),
        MatrixAction::ReflectV(sel) => reflect_v_rows_spec(
            g,
            loc_of(sel.starts),
            sel.ends.x - sel.starts.x + 1,
            sel.ends.y - sel.starts.y + 1,
            0,
        ),
        MatrixAction::Paste(t, d) => paste_rows_spec(g, loc_of(*t), d.data.deep_view(), 0),
        MatrixAction::Transpose(sel) => transpose_rows_spec(
            g,
            loc_of(sel.starts),
            sel.ends.x - sel.starts.x + 1,
            0,
        ),
    }
}

/// What one editing operation does to the grid bounds.
pub open spec fn action_dims_effect(m: &Matrix, a: &MatrixAction) -> Coord {
    match a {
        MatrixAction::Resize(d) => if !m.simulating && spec_min_dims(m.mode).x <= d.x
            && spec_min_dims(m.mode).y <= d.y {
            *d
        } else {
            m.dims
        },
        _ => m.dims,
    }
}

pub open spec fn spec_min_dims(mode: MatrixMode) -> Coord {
    match mode {
        MatrixMode::L3 => Coord { x: 1, y: 1 },
        MatrixMode::L3X => Coord { x: 2, y: 2 },
    }
}


/// Every direction adjustment used by the editing operations is an
/// involution.
pub proof fn lemma_dir_mapped_involution(kind: DirMap, d: Direction)
    ensures
        dir_mapped(kind, dir_mapped(kind, d)) == d,
{
    crate::direction::lemma_direction_involutions(d);
}

/// Exchanging the same two cells twice, with the same direction
/// adjustment, restores the grid exactly: the self-inverse core of the
/// swap, reflection and transposition operations.
pub proof fn lemma_swap_map_involution(
    g: Map<(int, int), InstrView>,
    k1: (int, int),
    k2: (int, int),
    kind: DirMap,
)
    ensures
        swap_map_spec(swap_map_spec(g, k1, k2, kind), k1, k2, kind) == g,
{
    let g1 = swap_map_spec(g, k1, k2, kind);
    let g2 = swap_map_spec(g1, k1, k2, kind);
    assert forall|d: Direction| #[trigger] dir_mapped(kind, dir_mapped(kind, d)) == d by {
        lemma_dir_mapped_involution(kind, d);
    }
    assert forall|iv: InstrView| #[trigger] iv_mapped(kind, iv_mapped(kind, iv)) == iv by {
        assert(dir_mapped(kind, dir_mapped(kind, iv.direction)) == iv.direction);
    }
    if k1 == k2 {
        assert(g2 =~= g);
    } else {
        assert(g2 =~= g);
    }
}


/// Exchanges over disjoint cell pairs commute.
pub proof fn lemma_swap_map_commute(
    g: Map<(int, int), InstrView>,
    a1: (int, int),
    a2: (int, int),
    kind_a: DirMap,
    b1: (int, int),
    b2: (int, int),
    kind_b: DirMap,
)
    requires
        a1 != b1,
        a1 != b2,
        a2 != b1,
        a2 != b2,
    ensures
        swap_map_spec(swap_map_spec(g, a1, a2, kind_a), b1, b2, kind_b) == swap_map_spec(
            swap_map_spec(g, b1, b2, kind_b),
            a1,
            a2,
            kind_a,
        ),
{
    assert(swap_map_spec(swap_map_spec(g, a1, a2, kind_a), b1, b2, kind_b) =~= swap_map_spec(
        swap_map_spec(g, b1, b2, kind_b),
        a1,
        a2,
        kind_a,
    ));
}


/// A cell exchange whose two cells avoid every remaining pair of a
/// horizontal-reflection row pass commutes with that pass.
proof fn lemma_swap_through_reflect_h_row(
    g: Map<(int, int), InstrView>,
    s: (int, int),
    w: int,
    i: int,
    j: int,
    b1: (int, int),
    b2: (int, int),
    kind_b: DirMap,
)
    requires
        forall|jj: int| #![trigger s.0 + jj]
            j <= jj < (w + 1) / 2 ==> (s.0 + jj, s.1 + i) != b1 && (s.0 + jj, s.1 + i) != b2 && (
            s.0 + (w - jj - 1), s.1 + i) != b1 && (s.0 + (w - jj - 1), s.1 + i) != b2,
    ensures
        reflect_h_row_spec(swap_map_spec(g, b1, b2, kind_b), s, w, i, j) == swap_map_spec(
            reflect_h_row_spec(g, s, w, i, j),
            b1,
            b2,
            kind_b,
        ),
    decreases (w + 1) / 2 - j,
{
    if j < 0 || j >= (w + 1) / 2 {
    } else {
        let p1 = (s.0 + j, s.1 + i);
        let p2 = (s.0 + (w - j - 1), s.1 + i);
        lemma_swap_map_commute(g, p1, p2, DirMap::FlipH, b1, b2, kind_b);
        lemma_swap_through_reflect_h_row(
            swap_map_spec(g, p1, p2, DirMap::FlipH),
            s,
            w,
            i,
            j + 1,
            b1,
            b2,
            kind_b,
        );
    }
}

/// One horizontal-reflection row pass undoes itself: its pairs are
/// pairwise disjoint and each exchange is an involution.
proof fn lemma_reflect_h_row_involution(
    g: Map<(int, int), InstrView>,
    s: (int, int),
    w: int,
    i: int,
    j: int,
)
    ensures
        reflect_h_row_spec(reflect_h_row_spec(g, s, w, i, j), s, w, i, j) == g,
    decreases (w + 1) / 2 - j,
{
    if j < 0 || j >= (w + 1) / 2 {
    } else {
        let p1 = (s.0 + j, s.1 + i);
        let p2 = (s.0 + (w - j - 1), s.1 + i);
        let x = swap_map_spec(g, p1, p2, DirMap::FlipH);
        let y = reflect_h_row_spec(x, s, w, i, j + 1);
        // the pair at j stays clear of every later pair in the row
        assert forall|jj: int| #![trigger s.0 + jj]
            j + 1 <= jj < (w + 1) / 2 implies (s.0 + jj, s.1 + i) != p1 && (
        s.0 + jj, s.1 + i) != p2 && (s.0 + (w - jj - 1), s.1 + i) != p1 && (
        s.0 + (w - jj - 1), s.1 + i) != p2 by {
            assert(jj != j);
            assert(jj != w - j - 1);
            assert(w - jj - 1 != j);
            assert(w - jj - 1 != w - j - 1);
        }
        lemma_swap_through_reflect_h_row(y, s, w, i, j + 1, p1, p2, DirMap::FlipH);
        assert(reflect_h_row_spec(swap_map_spec(y, p1, p2, DirMap::FlipH), s, w, i, j + 1)
            == swap_map_spec(reflect_h_row_spec(y, s, w, i, j + 1), p1, p2, DirMap::FlipH));
        lemma_reflect_h_row_involution(x, s, w, i, j + 1);
        assert(reflect_h_row_spec(y, s, w, i, j + 1) == x);
        lemma_swap_map_involution(g, p1, p2, DirMap::FlipH);
    }
}

/// A cell exchange that stays out of the rows a horizontal reflection still
/// has to visit commutes with the remaining row passes.
proof fn lemma_swap_through_reflect_h_rows(
    g: Map<(int, int), InstrView>,
    s: (int, int),
    w: int,
    h: int,
    i: int,
    b1: (int, int),
    b2: (int, int),
    kind_b: DirMap,
)
    requires
        forall|ii: int| #![trigger s.1 + ii] i <= ii < h ==> b1.1 != s.1 + ii && b2.1 != s.1 + ii,
    ensures
        reflect_h_rows_spec(swap_map_spec(g, b1, b2, kind_b), s, w, h, i) == swap_map_spec(
            reflect_h_rows_spec(g, s, w, h, i),
            b1,
            b2,
            kind_b,
        ),
    decreases h - i,
{
    if i < 0 || i >= h {
    } else {
        lemma_swap_through_reflect_h_row(g, s, w, i, 0, b1, b2, kind_b);
        lemma_swap_through_reflect_h_rows(
            reflect_h_row_spec(g, s, w, i, 0),
            s,
            w,
            h,
            i + 1,
            b1,
            b2,
            kind_b,
        );
    }
}

/// A whole row pass commutes with the row passes below it.
proof fn lemma_row_through_reflect_h_rows(
    g: Map<(int, int), InstrView>,
    s: (int, int),
    w: int,
    h: int,
    i: int,
    j: int,
)
    requires
        i < h,
    ensures
        reflect_h_rows_spec(reflect_h_row_spec(g, s, w, i, j), s, w, h, i + 1) == reflect_h_row_spec(
            reflect_h_rows_spec(g, s, w, h, i + 1),
            s,
            w,
            i,
            j,
        ),
    decreases (w + 1) / 2 - j,
{
    if j < 0 || j >= (w + 1) / 2 {
    } else {
        let p1 = (s.0 + j, s.1 + i);
        let p2 = (s.0 + (w - j - 1), s.1 + i);
        let x = swap_map_spec(g, p1, p2, DirMap::FlipH);
        lemma_row_through_reflect_h_rows(x, s, w, h, i, j + 1);
        lemma_swap_through_reflect_h_rows(g, s, w, h, i + 1, p1, p2, DirMap::FlipH);
    }
}

/// Reflecting a region across its vertical center line twice restores the
/// grid exactly.
pub proof fn lemma_reflect_h_involution(
    g: Map<(int, int), InstrView>,
    s: (int, int),
    w: int,
    h: int,
    i: int,
)
    ensures
        reflect_h_rows_spec(reflect_h_rows_spec(g, s, w, h, i), s, w, h, i) == g,
    decreases h - i,
{
    if i < 0 || i >= h {
    } else {
        let x = reflect_h_row_spec(g, s, w, i, 0);
        let y = reflect_h_rows_spec(x, s, w, h, i + 1);
        // the outer pass begins by re-reflecting row i, which cancels
        lemma_row_through_reflect_h_rows(y, s, w, h, i, 0);
        assert(reflect_h_rows_spec(reflect_h_row_spec(y, s, w, i, 0), s, w, h, i + 1)
            == reflect_h_row_spec(reflect_h_rows_spec(y, s, w, h, i + 1), s, w, i, 0));
        lemma_reflect_h_involution(x, s, w, h, i + 1);
        assert(reflect_h_rows_spec(y, s, w, h, i + 1) == x);
        lemma_reflect_h_row_involution(g, s, w, i, 0);
    }
}


/// A cell exchange whose two cells avoid every remaining pair of a
/// vertical-reflection column pass commutes with that pass.
proof fn lemma_swap_through_reflect_v_row(
    g: Map<(int, int), InstrView>,
    s: (int, int),
    w: int,
    h: int,
    i: int,
    j: int,
    b1: (int, int),
    b2: (int, int),
    kind_b: DirMap,
)
    requires
        forall|jj: int| #![trigger s.0 + jj]
            j <= jj < w ==> (s.0 + jj, s.1 + i) != b1 && (s.0 + jj, s.1 + i) != b2 && (
            s.0 + jj, s.1 + (h - i - 1)) != b1 && (s.0 + jj, s.1 + (h - i - 1)) != b2,
    ensures
        reflect_v_row_spec(swap_map_spec(g, b1, b2, kind_b), s, w, h, i, j) == swap_map_spec(
            reflect_v_row_spec(g, s, w, h, i, j),
            b1,
            b2,
            kind_b,
        ),
    decreases w - j,
{
    if j < 0 || j >= w {
    } else {
        let p1 = (s.0 + j, s.1 + i);
        let p2 = (s.0 + j, s.1 + (h - i - 1));
        lemma_swap_map_commute(g, p1, p2, DirMap::FlipV, b1, b2, kind_b);
        lemma_swap_through_reflect_v_row(
            swap_map_spec(g, p1, p2, DirMap::FlipV),
            s,
            w,
            h,
            i,
            j + 1,
            b1,
            b2,
            kind_b,
        );
    }
}

/// One vertical-reflection column pass undoes itself.
proof fn lemma_reflect_v_row_involution(
    g: Map<(int, int), InstrView>,
    s: (int, int),
    w: int,
    h: int,
    i: int,
    j: int,
)
    ensures
        reflect_v_row_spec(reflect_v_row_spec(g, s, w, h, i, j), s, w, h, i, j) == g,
    decreases w - j,
{
    if j < 0 || j >= w {
    } else {
        let p1 = (s.0 + j, s.1 + i);
        let p2 = (s.0 + j, s.1 + (h - i - 1));
        let x = swap_map_spec(g, p1, p2, DirMap::FlipV);
        let y = reflect_v_row_spec(x, s, w, h, i, j + 1);
        lemma_swap_through_reflect_v_row(y, s, w, h, i, j + 1, p1, p2, DirMap::FlipV);
        lemma_reflect_v_row_involution(x, s, w, h, i, j + 1);
        assert(reflect_v_row_spec(y, s, w, h, i, j + 1) == x);
        lemma_swap_map_involution(g, p1, p2, DirMap::FlipV);
    }
}

/// A cell exchange that stays out of the row pairs a vertical reflection
/// still has to visit commutes with the remaining passes.
proof fn lemma_swap_through_reflect_v_rows(
    g: Map<(int, int), InstrView>,
    s: (int, int),
    w: int,
    h: int,
    i: int,
    b1: (int, int),
    b2: (int, int),
    kind_b: DirMap,
)
    requires
        forall|ii: int| #![trigger s.1 + ii]
            i <= ii < (h + 1) / 2 ==> b1.1 != s.1 + ii && b2.1 != s.1 + ii && b1.1 != s.1 + (h - ii
                - 1) && b2.1 != s.1 + (h - ii - 1),
    ensures
        reflect_v_rows_spec(swap_map_spec(g, b1, b2, kind_b), s, w, h, i) == swap_map_spec(
            reflect_v_rows_spec(g, s, w, h, i),
            b1,
            b2,
            kind_b,
        ),
    decreases (h + 1) / 2 - i,
{
    if i < 0 || i >= (h + 1) / 2 {
    } else {
        lemma_swap_through_reflect_v_row(g, s, w, h, i, 0, b1, b2, kind_b);
        lemma_swap_through_reflect_v_rows(
            reflect_v_row_spec(g, s, w, h, i, 0),
            s,
            w,
            h,
            i + 1,
            b1,
            b2,
            kind_b,
        );
    }
}

/// A whole column pass commutes with the passes after it.
proof fn lemma_row_through_reflect_v_rows(
    g: Map<(int, int), InstrView>,
    s: (int, int),
    w: int,
    h: int,
    i: int,
    j: int,
)
    requires
        0 <= i < (h + 1) / 2,
    ensures
        reflect_v_rows_spec(reflect_v_row_spec(g, s, w, h, i, j), s, w, h, i + 1)
            == reflect_v_row_spec(reflect_v_rows_spec(g, s, w, h, i + 1), s, w, h, i, j),
    decreases w - j,
{
    if j < 0 || j >= w {
    } else {
        let p1 = (s.0 + j, s.1 + i);
        let p2 = (s.0 + j, s.1 + (h - i - 1));
        let x = swap_map_spec(g, p1, p2, DirMap::FlipV);
        lemma_row_through_reflect_v_rows(x, s, w, h, i, j + 1);
        lemma_swap_through_reflect_v_rows(g, s, w, h, i + 1, p1, p2, DirMap::FlipV);
    }
}

/// Reflecting a region across its horizontal center line twice restores
/// the grid exactly.
pub proof fn lemma_reflect_v_involution(
    g: Map<(int, int), InstrView>,
    s: (int, int),
    w: int,
    h: int,
    i: int,
)
    requires
        i >= 0,
    ensures
        reflect_v_rows_spec(reflect_v_rows_spec(g, s, w, h, i), s, w, h, i) == g,
    decreases (h + 1) / 2 - i,
{
    if i >= (h + 1) / 2 {
    } else {
        let x = reflect_v_row_spec(g, s, w, h, i, 0);
        let y = reflect_v_rows_spec(x, s, w, h, i + 1);
        lemma_row_through_reflect_v_rows(y, s, w, h, i, 0);
        lemma_reflect_v_involution(x, s, w, h, i + 1);
        assert(reflect_v_rows_spec(y, s, w, h, i + 1) == x);
        lemma_reflect_v_row_involution(g, s, w, h, i, 0);
    }
}


/// A horizontal reflection is its own inverse: applying it to the same
/// selection twice restores the grid exactly.
pub proof fn lemma_reflect_h_self_inverse(g: Map<(int, int), InstrView>, sel: Selection)
    ensures
        action_grid_effect(
            action_grid_effect(g, &MatrixAction::ReflectH(sel)),
            &MatrixAction::ReflectH(sel),
        ) == g,
{
    lemma_reflect_h_involution(
        g,
        loc_of(sel.starts),
        sel.ends.x - sel.starts.x + 1,
        sel.ends.y - sel.starts.y + 1,
        0,
    );
}

/// A vertical reflection is its own inverse: applying it to the same
/// selection twice restores the grid exactly.
pub proof fn lemma_reflect_v_self_inverse(g: Map<(int, int), InstrView>, sel: Selection)
    ensures
        action_grid_effect(
            action_grid_effect(g, &MatrixAction::ReflectV(sel)),
            &MatrixAction::ReflectV(sel),
        ) == g,
{
    lemma_reflect_v_involution(
        g,
        loc_of(sel.starts),
        sel.ends.x - sel.starts.x + 1,
        sel.ends.y - sel.starts.y + 1,
        0,
    );
}

impl Matrix {
    /// Exchanges the cells at `k1` and `k2`, adjusting both directions.
    fn swap_and_map(&mut self, k1: Coord, k2: Coord, kind: DirMap)
        requires
            old(self).wf(),
        ensures
            final(self).wf(),
            final(self).instructions@ == swap_map_spec(
                old(self).instructions@,
                loc_of(k1),
                loc_of(k2),
                kind,
            ),
            *final(self) == (Matrix { instructions: final(self).instructions, ..*old(self) }),
    {
        let e1 = self.instructions.remove(k1);
        let e2 = self.instructions.remove(k2);
        match e1 {
            Some(v) => {
                let m = self.map_instr(v, kind);
                self.instructions.insert(k2, m);
            },
            None => (),
        }
        match e2 {
            Some(v) => {
                let m = self.map_instr(v, kind);
                self.instructions.insert(k1, m);
            },
            None => (),
        }
        proof {
            assert(grid_wf(self.instructions@)) by {
                assert forall|l: (int, int)| #[trigger] self.grid().contains_key(l) implies iv_wf(
                    self.grid()[l],
                ) by {}
            }
        }
    }

    /// Applies a direction adjustment to an instruction.
    fn map_instr(&self, x: L3X, kind: DirMap) -> (r: L3X)
        ensures
            r.deep_view() == iv_mapped(kind, x.deep_view()),
            iv_wf(x.deep_view()) ==> iv_wf(r.deep_view()),
    {
        let d = match kind {
            DirMap::Keep => x.direction,
            DirMap::FlipH => x.direction.reflect_h(),
            DirMap::FlipV => x.direction.reflect_v(),
            DirMap::Diag => x.direction.transpose(),
        };
        L3X { direction: d, command: x.command }
    }

    /// Cuts the selected region out of the grid, returning its contents as
    /// a block whose cells mirror what was removed.
    #[verifier::loop_isolation(false)]
    pub fn snip(&mut self, range: Selection) -> (r: L3XData)
        requires
            old(self).wf(),
            sel_wf(range),
        ensures
            final(self).wf(),
            data_wf(&r),
            r.dims.x as int == range.ends.x - range.starts.x + 1,
            r.dims.y as int == range.ends.y - range.starts.y + 1,
            forall|i: int, j: int|
                0 <= i < r.dims.y && 0 <= j < r.dims.x ==> #[trigger] r.data.deep_view()[i][j] == (
                if old(self).grid().contains_key(
                    (range.starts.x + j, range.starts.y + i),
                ) {
                    Some(old(self).grid()[(range.starts.x + j, range.starts.y + i)])
                } else {
                    None::<InstrView>
                }),
            final(self).instructions@ == snip_rows_spec(
                old(self).instructions@,
                loc_of(range.starts),
                range.ends.x - range.starts.x + 1,
                range.ends.y - range.starts.y + 1,
                0,
            ),
            *final(self) == (Matrix { instructions: final(self).instructions, ..*old(self) }),
    {
        let w = range.width();
        let h = range.height();
        let ghost g0 = self.instructions@;
        let ghost s = loc_of(range.starts);
        let mut rows: Vec<Vec<Option<L3X>>> = Vec::new();
        let mut i: i32 = 0;
        while i < h
            invariant
                0 <= i <= h,
                w as int == range.ends.x - range.starts.x + 1,
                h as int == range.ends.y - range.starts.y + 1,
                sel_wf(range),
                s == loc_of(range.starts),
                rows@.len() == i,
                forall|a: int| 0 <= a < i ==> (#[trigger] rows@[a])@.len() == w,
                forall|a: int, b: int|
                    0 <= a < i && 0 <= b < w ==> #[trigger] rows.deep_view()[a][b] == (
                    if g0.contains_key((s.0 + b, s.1 + a)) {
                        Some(g0[(s.0 + b, s.1 + a)])
                    } else {
                        None::<InstrView>
                    }),
                forall|a: int, b: int|
                    0 <= a < i && 0 <= b < w ==> match #[trigger] rows@[a]@[b] {
                        Some(x) => x.wf(),
                        None => true,
                    },
                snip_rows_spec(g0, s, w as int, h as int, 0) == snip_rows_spec(
                    self.instructions@,
                    s,
                    w as int,
                    h as int,
                    i as int,
                ),
                // rows at or below i are untouched so far
                forall|a: int, b: int|
                    i <= a < h && 0 <= b < w ==> (#[trigger] self.instructions@.contains_key(
                        (s.0 + b, s.1 + a),
                    ) == g0.contains_key((s.0 + b, s.1 + a)) && (g0.contains_key(
                        (s.0 + b, s.1 + a),
                    ) ==> self.instructions@[(s.0 + b, s.1 + a)] == g0[(s.0 + b, s.1 + a)])),
                self.wf(),
                *self == (Matrix { instructions: self.instructions, ..*old(self) }),
            decreases h - i,
        {
            let mut row: Vec<Option<L3X>> = Vec::new();
            let ghost grow = self.instructions@;
            let mut j: i32 = 0;
            while j < w
                invariant
                    0 <= i < h,
                    0 <= j <= w,
                    w as int == range.ends.x - range.starts.x + 1,
                    h as int == range.ends.y - range.starts.y + 1,
                    sel_wf(range),
                    s == loc_of(range.starts),
                    row@.len() == j,
                    forall|b: int|
                        0 <= b < j ==> #[trigger] row.deep_view()[b] == (if g0.contains_key(
                            (s.0 + b, s.1 + i),
                        ) {
                            Some(g0[(s.0 + b, s.1 + i)])
                        } else {
                            None::<InstrView>
                        }),
                    forall|b: int|
                        0 <= b < j ==> match #[trigger] row@[b] {
                            Some(x) => x.wf(),
                            None => true,
                        },
                    snip_row_spec(grow, s, i as int, w as int, 0) == snip_row_spec(
                        self.instructions@,
                        s,
                        i as int,
                        w as int,
                        j as int,
                    ),
                    forall|a: int, b: int|
                        i <= a < h && 0 <= b < w && (a > i || b >= j) ==> (
                        #[trigger] self.instructions@.contains_key((s.0 + b, s.1 + a))
                            == g0.contains_key((s.0 + b, s.1 + a)) && (g0.contains_key(
                            (s.0 + b, s.1 + a),
                        ) ==> self.instructions@[(s.0 + b, s.1 + a)] == g0[(s.0 + b, s.1 + a)])),
                    self.wf(),
                    *self == (Matrix { instructions: self.instructions, ..*old(self) }),
                decreases w - j,
            {
                let c = Coord { x: range.starts.x + j, y: range.starts.y + i };
                let ghost before = self.instructions@;
                let ghost key = (s.0 + j, s.1 + i);
                let got = self.instructions.remove(c);
                proof {
                    assert(loc_of(c) == key);
                    if !before.contains_key(key) {
                        assert(before.remove(key) =~= before);
                    }
                    assert(self.instructions@ == before.remove(key));
                    assert(snip_row_spec(grow, s, i as int, w as int, 0) == snip_row_spec(
                        before.remove(key),
                        s,
                        i as int,
                        w as int,
                        j + 1,
                    ));
                    assert(grid_wf(self.instructions@)) by {
                        assert forall|l: (int, int)|
                            #[trigger] self.grid().contains_key(l) implies iv_wf(
                            self.grid()[l],
                        ) by {}
                    }
                    match &got {
                        Some(x) => {
                            assert(x.deep_view() == g0[key]);
                            assert(iv_wf(x.deep_view()));
                            assert(x.wf());
                        },
                        None => {},
                    }
                }
                let ghost row_pre = row.deep_view();
                let ghost gotv = got.deep_view();
                proof {
                    match &got {
                        Some(x) => {
                            assert(gotv == Some(x.deep_view()));
                            assert(g0.contains_key(key));
                            assert(gotv == Some(g0[key]));
                        },
                        None => {
                            assert(gotv == None::<InstrView>);
                            assert(!g0.contains_key(key));
                        },
                    }
                }
                row.push(got);
                proof {
                    assert(row.deep_view() =~= row_pre.push(gotv));
                    assert forall|b: int| 0 <= b < j + 1 implies #[trigger] row.deep_view()[b]
                        == (if g0.contains_key((s.0 + b, s.1 + i)) {
                        Some(g0[(s.0 + b, s.1 + i)])
                    } else {
                        None::<InstrView>
                    }) by {
                        if b < j {
                            assert(row.deep_view()[b] == row_pre[b]);
                        } else {
                            assert(row.deep_view()[b] == gotv);
                        }
                    }
                    assert forall|a: int, b: int|
                        i <= a < h && 0 <= b < w && (a > i || b >= j + 1) implies (
                        #[trigger] self.instructions@.contains_key((s.0 + b, s.1 + a))
                            == g0.contains_key((s.0 + b, s.1 + a)) && (g0.contains_key(
                            (s.0 + b, s.1 + a),
                        ) ==> self.instructions@[(s.0 + b, s.1 + a)] == g0[
                            (s.0 + b, s.1 + a)
                        ])) by {
                        assert((s.0 + b, s.1 + a) != key);
                        assert(self.instructions@ == before.remove(key));
                        assert(before.contains_key((s.0 + b, s.1 + a)) == g0.contains_key(
                            (s.0 + b, s.1 + a),
                        ));
                    }
                }
                j += 1;
            }
            let ghost rows_pre = rows.deep_view();
            rows.push(row);
            proof {
                assert(rows.deep_view() =~= rows_pre.push(rows@[i as int].deep_view()));
                assert(snip_rows_spec(grow, s, w as int, h as int, i as int) == snip_rows_spec(
                    snip_row_spec(grow, s, i as int, w as int, 0),
                    s,
                    w as int,
                    h as int,
                    i + 1,
                ));
                assert(snip_row_spec(grow, s, i as int, w as int, 0) == self.instructions@);
            }
            i += 1;
        }
        let r = L3XData {
            data: rows,
            dims: Coord { x: w, y: h },
        };
        r
    }
}

impl Matrix {
    /// Relocates the selected region's cells to the same-shaped region at
    /// `t`, cell by cell.
    #[verifier::loop_isolation(false)]
    fn swap_region(&mut self, s: Coord, t: Coord, w: i32, h: i32)
        requires
            old(self).wf(),
            0 <= s.x <= 2 * MAX_DIM + 2,
            0 <= s.y <= 2 * MAX_DIM + 2,
            0 <= t.x <= 2 * MAX_DIM + 2,
            0 <= t.y <= 2 * MAX_DIM + 2,
            0 <= w <= 2 * MAX_DIM + 3,
            0 <= h <= 2 * MAX_DIM + 3,
        ensures
            final(self).wf(),
            final(self).instructions@ == swap_rows_spec(
                old(self).instructions@,
                loc_of(s),
                loc_of(t),
                w as int,
                h as int,
                0,
            ),
            *final(self) == (Matrix { instructions: final(self).instructions, ..*old(self) }),
    {
        let ghost g0 = self.instructions@;
        let ghost sv = loc_of(s);
        let ghost tvv = loc_of(t);
        let mut i: i32 = 0;
        while i < h
            invariant
                0 <= i <= h,
                swap_rows_spec(g0, sv, tvv, w as int, h as int, 0) == swap_rows_spec(
                    self.instructions@,
                    sv,
                    tvv,
                    w as int,
                    h as int,
                    i as int,
                ),
                self.wf(),
                *self == (Matrix { instructions: self.instructions, ..*old(self) }),
            decreases h - i,
        {
            let ghost grow = self.instructions@;
            let mut j: i32 = 0;
            while j < w
                invariant
                    0 <= i < h,
                    0 <= j <= w,
                    swap_row_spec(grow, sv, tvv, i as int, w as int, 0) == swap_row_spec(
                        self.instructions@,
                        sv,
                        tvv,
                        i as int,
                        w as int,
                        j as int,
                    ),
                    self.wf(),
                    *self == (Matrix { instructions: self.instructions, ..*old(self) }),
                decreases w - j,
            {
                let k1 = Coord { x: s.x + j, y: s.y + i };
                let k2 = Coord { x: t.x + j, y: t.y + i };
                let ghost before = self.instructions@;
                self.swap_and_map(k1, k2, DirMap::Keep);
                proof {
                    assert(swap_row_spec(before, sv, tvv, i as int, w as int, j as int)
                        == swap_row_spec(
                        swap_map_spec(before, (sv.0 + j, sv.1 + i), (tvv.0 + j, tvv.1 + i), DirMap::Keep),
                        sv,
                        tvv,
                        i as int,
                        w as int,
                        j + 1,
                    ));
                }
                j += 1;
            }
            proof {
                assert(swap_rows_spec(grow, sv, tvv, w as int, h as int, i as int)
                    == swap_rows_spec(
                    swap_row_spec(grow, sv, tvv, i as int, w as int, 0),
                    sv,
                    tvv,
                    w as int,
                    h as int,
                    i + 1,
                ));
                assert(swap_row_spec(grow, sv, tvv, i as int, w as int, 0)
                    == self.instructions@);
            }
            i += 1;
        }
    }

    /// Mirrors the selected region across its vertical center line,
    /// flipping each moved cell's direction.
    #[verifier::loop_isolation(false)]
    fn reflect_h_region(&mut self, s: Coord, w: i32, h: i32)
        requires
            old(self).wf(),
            0 <= s.x <= 2 * MAX_DIM + 2,
            0 <= s.y <= 2 * MAX_DIM + 2,
            0 <= w <= 2 * MAX_DIM + 3,
            0 <= h <= 2 * MAX_DIM + 3,
        ensures
            final(self).wf(),
            final(self).instructions@ == reflect_h_rows_spec(
                old(self).instructions@,
                loc_of(s),
                w as int,
                h as int,
                0,
            ),
            *final(self) == (Matrix { instructions: final(self).instructions, ..*old(self) }),
    {
        let ghost g0 = self.instructions@;
        let ghost sv = loc_of(s);
        let half = (w + 1) / 2;
        let mut i: i32 = 0;
        while i < h
            invariant
                0 <= i <= h,
                half == (w + 1) / 2,
                reflect_h_rows_spec(g0, sv, w as int, h as int, 0) == reflect_h_rows_spec(
                    self.instructions@,
                    sv,
                    w as int,
                    h as int,
                    i as int,
                ),
                self.wf(),
                *self == (Matrix { instructions: self.instructions, ..*old(self) }),
            decreases h - i,
        {
            let ghost grow = self.instructions@;
            let mut j: i32 = 0;
            while j < half
                invariant
                    0 <= i < h,
                    0 <= j <= half,
                    half == (w + 1) / 2,
                    reflect_h_row_spec(grow, sv, w as int, i as int, 0) == reflect_h_row_spec(
                        self.instructions@,
                        sv,
                        w as int,
                        i as int,
                        j as int,
                    ),
                    self.wf(),
                    *self == (Matrix { instructions: self.instructions, ..*old(self) }),
                decreases half - j,
            {
                let k1 = Coord { x: s.x + j, y: s.y + i };
                let k2 = Coord { x: s.x + (w - j - 1), y: s.y + i };
                let ghost before = self.instructions@;
                self.swap_and_map(k1, k2, DirMap::FlipH);
                proof {
                    assert(reflect_h_row_spec(before, sv, w as int, i as int, j as int)
                        == reflect_h_row_spec(
                        swap_map_spec(
                            before,
                            (sv.0 + j, sv.1 + i),
                            (sv.0 + (w - j - 1), sv.1 + i),
                            DirMap::FlipH,
                        ),
                        sv,
                        w as int,
                        i as int,
                        j + 1,
                    ));
                }
                j += 1;
            }
            proof {
                assert(reflect_h_rows_spec(grow, sv, w as int, h as int, i as int)
                    == reflect_h_rows_spec(
                    reflect_h_row_spec(grow, sv, w as int, i as int, 0),
                    sv,
                    w as int,
                    h as int,
                    i + 1,
                ));
                assert(reflect_h_row_spec(grow, sv, w as int, i as int, 0)
                    == self.instructions@);
            }
            i += 1;
        }
    }

    /// Mirrors the selected region across its horizontal center line,
    /// flipping each moved cell's direction.
    #[verifier::loop_isolation(false)]
    fn reflect_v_region(&mut self, s: Coord, w: i32, h: i32)
        requires
            old(self).wf(),
            0 <= s.x <= 2 * MAX_DIM + 2,
            0 <= s.y <= 2 * MAX_DIM + 2,
            0 <= w <= 2 * MAX_DIM + 3,
            0 <= h <= 2 * MAX_DIM + 3,
        ensures
            final(self).wf(),
            final(self).instructions@ == reflect_v_rows_spec(
                old(self).instructions@,
                loc_of(s),
                w as int,
                h as int,
                0,
            ),
            *final(self) == (Matrix { instructions: final(self).instructions, ..*old(self) }),
    {
        let ghost g0 = self.instructions@;
        let ghost sv = loc_of(s);
        let half = (h + 1) / 2;
        let mut i: i32 = 0;
        while i < half
            invariant
                0 <= i <= half,
                half == (h + 1) / 2,
                reflect_v_rows_spec(g0, sv, w as int, h as int, 0) == reflect_v_rows_spec(
                    self.instructions@,
                    sv,
                    w as int,
                    h as int,
                    i as int,
                ),
                self.wf(),
                *self == (Matrix { instructions: self.instructions, ..*old(self) }),
            decreases half - i,
        {
            let ghost grow = self.instructions@;
            let mut j: i32 = 0;
            while j < w
                invariant
                    0 <= i < half,
                    half == (h + 1) / 2,
                    0 <= j <= w,
                    reflect_v_row_spec(grow, sv, w as int, h as int, i as int, 0)
                        == reflect_v_row_spec(
                        self.instructions@,
                        sv,
                        w as int,
                        h as int,
                        i as int,
                        j as int,
                    ),
                    self.wf(),
                    *self == (Matrix { instructions: self.instructions, ..*old(self) }),
                decreases w - j,
            {
                let k1 = Coord { x: s.x + j, y: s.y + i };
                let k2 = Coord { x: s.x + j, y: s.y + (h - i - 1) };
                let ghost before = self.instructions@;
                self.swap_and_map(k1, k2, DirMap::FlipV);
                proof {
                    assert(reflect_v_row_spec(before, sv, w as int, h as int, i as int, j as int)
                        == reflect_v_row_spec(
                        swap_map_spec(
                            before,
                            (sv.0 + j, sv.1 + i),
                            (sv.0 + j, sv.1 + (h - i - 1)),
                            DirMap::FlipV,
                        ),
                        sv,
                        w as int,
                        h as int,
                        i as int,
                        j + 1,
                    ));
                }
                j += 1;
            }
            proof {
                assert(reflect_v_rows_spec(grow, sv, w as int, h as int, i as int)
                    == reflect_v_rows_spec(
                    reflect_v_row_spec(grow, sv, w as int, h as int, i as int, 0),
                    sv,
                    w as int,
                    h as int,
                    i + 1,
                ));
                assert(reflect_v_row_spec(grow, sv, w as int, h as int, i as int, 0)
                    == self.instructions@);
            }
            i += 1;
        }
    }

    /// Transposes the selected square region across its main diagonal,
    /// exchanging each cell's direction for its diagonal counterpart.
    #[verifier::loop_isolation(false)]
    fn transpose_region(&mut self, s: Coord, side: i32)
        requires
            old(self).wf(),
            0 <= s.x <= 2 * MAX_DIM + 2,
            0 <= s.y <= 2 * MAX_DIM + 2,
            0 <= side <= 2 * MAX_DIM + 3,
        ensures
            final(self).wf(),
            final(self).instructions@ == transpose_rows_spec(
                old(self).instructions@,
                loc_of(s),
                side as int,
                0,
            ),
            *final(self) == (Matrix { instructions: final(self).instructions, ..*old(self) }),
    {
        let ghost g0 = self.instructions@;
        let ghost sv = loc_of(s);
        let mut i: i32 = 0;
        while i < side
            invariant
                0 <= i <= side,
                transpose_rows_spec(g0, sv, side as int, 0) == transpose_rows_spec(
                    self.instructions@,
                    sv,
                    side as int,
                    i as int,
                ),
                self.wf(),
                *self == (Matrix { instructions: self.instructions, ..*old(self) }),
            decreases side - i,
        {
            let ghost grow = self.instructions@;
            let mut j: i32 = i;
            while j < side
                invariant
                    0 <= i < side,
                    i <= j <= side,
                    transpose_row_spec(grow, sv, side as int, i as int, i as int)
                        == transpose_row_spec(
                        self.instructions@,
                        sv,
                        side as int,
                        i as int,
                        j as int,
                    ),
                    self.wf(),
                    *self == (Matrix { instructions: self.instructions, ..*old(self) }),
                decreases side - j,
            {
                let k1 = Coord { x: s.x + j, y: s.y + i };
                let k2 = Coord { x: s.x + i, y: s.y + j };
                let ghost before = self.instructions@;
                self.swap_and_map(k1, k2, DirMap::Diag);
                proof {
                    assert(transpose_row_spec(before, sv, side as int, i as int, j as int)
                        == transpose_row_spec(
                        swap_map_spec(
                            before,
                            (sv.0 + j, sv.1 + i),
                            (sv.0 + i, sv.1 + j),
                            DirMap::Diag,
                        ),
                        sv,
                        side as int,
                        i as int,
                        j + 1,
                    ));
                }
                j += 1;
            }
            proof {
                assert(transpose_rows_spec(grow, sv, side as int, i as int)
                    == transpose_rows_spec(
                    transpose_row_spec(grow, sv, side as int, i as int, i as int),
                    sv,
                    side as int,
                    i + 1,
                ));
                assert(transpose_row_spec(grow, sv, side as int, i as int, i as int)
                    == self.instructions@);
            }
            i += 1;
        }
    }

    /// Overwrites the rectangle at `t` with the block's cells: filled cells
    /// replace, empty cells erase.
    #[verifier::loop_isolation(false)]
    fn paste_region(&mut self, t: Coord, d: &L3XData)
        requires
            old(self).wf(),
            data_wf(d),
            0 <= t.x <= MAX_DIM,
            0 <= t.y <= MAX_DIM,
        ensures
            final(self).wf(),
            final(self).instructions@ == paste_rows_spec(
                old(self).instructions@,
                loc_of(t),
                d.data.deep_view(),
                0,
            ),
            *final(self) == (Matrix { instructions: final(self).instructions, ..*old(self) }),
    {
        let ghost g0 = self.instructions@;
        let ghost tvv = loc_of(t);
        let ghost rows = d.data.deep_view();
        let n = d.data.len();
        let mut i: usize = 0;
        while i < n
            invariant
                i <= n,
                n == d.data@.len(),
                rows == d.data.deep_view(),
                paste_rows_spec(g0, tvv, rows, 0) == paste_rows_spec(
                    self.instructions@,
                    tvv,
                    rows,
                    i as int,
                ),
                self.wf(),
                *self == (Matrix { instructions: self.instructions, ..*old(self) }),
            decreases n - i,
        {
            let ghost grow = self.instructions@;
            let row = &d.data[i];
            let m = row.len();
            proof {
                assert(rows[i as int] == d.data@[i as int].deep_view());
            }
            let mut j: usize = 0;
            while j < m
                invariant
                    i < n,
                    n == d.data@.len(),
                    j <= m,
                    m == d.data@[i as int]@.len(),
                    row == &d.data@[i as int],
                    rows == d.data.deep_view(),
                    rows[i as int] == d.data@[i as int].deep_view(),
                    data_wf(d),
                    0 <= t.x <= MAX_DIM,
                    0 <= t.y <= MAX_DIM,
                    tvv == loc_of(t),
                    paste_row_spec(grow, tvv, rows[i as int], i as int, 0) == paste_row_spec(
                        self.instructions@,
                        tvv,
                        rows[i as int],
                        i as int,
                        j as int,
                    ),
                    self.wf(),
                    *self == (Matrix { instructions: self.instructions, ..*old(self) }),
                decreases m - j,
            {
                let c = Coord { x: t.x + j as i32, y: t.y + i as i32 };
                proof {
                    assert(loc_of(c) == (tvv.0 + j, tvv.1 + i));
                    assert(rows[i as int][j as int] == (match d.data@[i as int]@[j as int] {
                        Some(x) => Some(x.deep_view()),
                        None => None::<InstrView>,
                    }));
                }
                let ghost before = self.instructions@;
                match &row[j] {
                    Some(x) => {
                        proof {
                            assert(x.wf());
                        }
                        let cp = x.duplicate();
                        self.instructions.insert(c, cp);
                    },
                    None => {
                        let removed = self.instructions.remove(c);
                        proof {
                            if removed is None {
                                assert(before.remove(loc_of(c)) =~= before);
                            }
                        }
                    },
                }
                proof {
                    assert(paste_row_spec(before, tvv, rows[i as int], i as int, j as int)
                        == paste_row_spec(
                        self.instructions@,
                        tvv,
                        rows[i as int],
                        i as int,
                        j + 1,
                    ));
                    assert(grid_wf(self.instructions@)) by {
                        assert forall|l: (int, int)|
                            #[trigger] self.grid().contains_key(l) implies iv_wf(
                            self.grid()[l],
                        ) by {}
                    }
                }
                j += 1;
            }
            proof {
                assert(paste_rows_spec(grow, tvv, rows, i as int) == paste_rows_spec(
                    paste_row_spec(grow, tvv, rows[i as int], i as int, 0),
                    tvv,
                    rows,
                    i + 1,
                ));
                assert(paste_row_spec(grow, tvv, rows[i as int], i as int, 0)
                    == self.instructions@);
            }
            i += 1;
        }
    }

    /// Applies one editing operation to the grid without recording an
    /// inverse. A resize is silently refused while simulating or below the
    /// dialect's minimum size.
    #[verifier::loop_isolation(false)]
    pub fn apply_raw(&mut self, a: MatrixAction)
        requires
            old(self).wf(),
            action_wf(&a),
        ensures
            final(self).wf(),
            final(self).instructions@ == action_grid_effect(old(self).instructions@, &a),
            final(self).dims == action_dims_effect(old(self), &a),
            *final(self) == (Matrix {
                instructions: final(self).instructions,
                dims: final(self).dims,
                ..*old(self)
            }),
    {
        match a {
            MatrixAction::Resize(d) => {
                let minimum = match self.mode {
                    MatrixMode::L3 => Coord { x: 1, y: 1 },
                    MatrixMode::L3X => Coord { x: 2, y: 2 },
                };
                if !self.simulating && minimum.x <= d.x && minimum.y <= d.y {
                    self.dims = d;
                }
            },
            MatrixAction::Swap(sel, t) => {
                let w = sel.width();
                let h = sel.height();
                self.swap_region(sel.starts, t, w, h);
            },
            MatrixAction::ReflectH(sel) => {
                let w = sel.width();
                let h = sel.height();
                self.reflect_h_region(sel.starts, w, h);
            },
            MatrixAction::ReflectV(sel) => {
                let w = sel.width();
                let h = sel.height();
                self.reflect_v_region(sel.starts, w, h);
            },
            MatrixAction::Transpose(sel) => {
                let side = sel.width();
                self.transpose_region(sel.starts, side);
            },
            MatrixAction::Paste(t, d) => {
                self.paste_region(t, &d);
            },
        }
    }
}

impl MatrixAction {
    /// The inverse operation that undoes this one. Swaps, reflections and
    /// transpositions are self-inverse; a resize remembers the prior bounds;
    /// a paste snips the displaced block out of the grid to remember it.
    pub fn inverse(&self, m: &mut Matrix) -> (r: MatrixAction)
        requires
            old(m).wf(),
            action_wf(self),
        ensures
            final(m).wf(),
            action_wf(&r),
            match self {
                MatrixAction::Resize(_) => r == MatrixAction::Resize(old(m).dims) && *final(m)
                    == *old(m),
                MatrixAction::Swap(s, t) => r == MatrixAction::Swap(*s, *t) && *final(m) == *old(
                    m,
                ),
                MatrixAction::ReflectH(s) => r == MatrixAction::ReflectH(*s) && *final(m) == *old(
                    m,
                ),
                MatrixAction::ReflectV(s) => r == MatrixAction::ReflectV(*s) && *final(m) == *old(
                    m,
                ),
                MatrixAction::Transpose(s) => r == MatrixAction::Transpose(*s) && *final(m)
                    == *old(m),
                MatrixAction::Paste(t, d) => {
                    &&& *final(m) == (Matrix { instructions: final(m).instructions, ..*old(m) })
                    &&& final(m).instructions@ == snip_rows_spec(
                        old(m).instructions@,
                        loc_of(*t),
                        d.dims.x as int,
                        d.dims.y as int,
                        0,
                    )
                    &&& r matches MatrixAction::Paste(t2, d2) && t2 == *t && d2.dims == d.dims
                        && forall|i: int, j: int|
                        0 <= i < d.dims.y && 0 <= j < d.dims.x
                            ==> #[trigger] d2.data.deep_view()[i][j] == (if old(
                            m,
                        ).grid().contains_key((t.x + j, t.y + i)) {
                            Some(old(m).grid()[(t.x + j, t.y + i)])
                        } else {
                            None::<InstrView>
                        })
                },
            },
    {
        match self {
            MatrixAction::Resize(_) => MatrixAction::Resize(m.dims),
            MatrixAction::Swap(s, t) => MatrixAction::Swap(*s, *t),
            MatrixAction::ReflectH(s) => MatrixAction::ReflectH(*s),
            MatrixAction::ReflectV(s) => MatrixAction::ReflectV(*s),
            MatrixAction::Transpose(s) => MatrixAction::Transpose(*s),
            MatrixAction::Paste(t, d) => {
                let sel = Selection {
                    starts: *t,
                    ends: Coord { x: t.x + d.dims.x - 1, y: t.y + d.dims.y - 1 },
                };
                let snipped = m.snip(sel);
                MatrixAction::Paste(*t, snipped)
            },
        }
    }
}

impl Matrix {
    /// Applies one editing operation and pushes its inverse onto the undo
    /// stack.
    pub fn apply(&mut self, a: MatrixAction)
        requires
            old(self).wf(),
            action_wf(&a),
        ensures
            final(self).wf(),
            final(self).history@.len() == old(self).history@.len() + 1,
            forall|k: int|
                0 <= k < old(self).history@.len() ==> final(self).history@[k] == old(
                    self,
                ).history@[k],
            match a {
                MatrixAction::Resize(_) => {
                    &&& final(self).instructions@ == old(self).instructions@
                    &&& final(self).dims == action_dims_effect(old(self), &a)
                    &&& final(self).history@.last() == MatrixAction::Resize(old(self).dims)
                },
                MatrixAction::Paste(t, d) => {
                    &&& final(self).instructions@ == action_grid_effect(
                        snip_rows_spec(
                            old(self).instructions@,
                            loc_of(t),
                            d.dims.x as int,
                            d.dims.y as int,
                            0,
                        ),
                        &a,
                    )
                    &&& final(self).dims == old(self).dims
                    &&& final(self).history@.last() matches MatrixAction::Paste(t2, d2) && t2 == t
                        && d2.dims == d.dims && forall|i: int, j: int|
                        0 <= i < d.dims.y && 0 <= j < d.dims.x
                            ==> #[trigger] d2.data.deep_view()[i][j] == (if old(
                            self,
                        ).grid().contains_key((t.x + j, t.y + i)) {
                            Some(old(self).grid()[(t.x + j, t.y + i)])
                        } else {
                            None::<InstrView>
                        })
                },
                _ => {
                    &&& final(self).instructions@ == action_grid_effect(
                        old(self).instructions@,
                        &a,
                    )
                    &&& final(self).dims == old(self).dims
                    &&& final(self).history@.last() == a
                },
            },
            final(self).mode == old(self).mode,
            final(self).simulating == old(self).simulating,
            final(self).sim_view() == old(self).sim_view(),
            final(self).selecting == old(self).selecting,
    {
        let inv = a.inverse(self);
        let ghost invg = inv;
        self.apply_raw(a);
        let ghost hist0 = self.history@;
        self.history.push(inv);
        proof {
            assert(self.history@ =~= hist0.push(invg));
            assert(actions_wf(self.history@)) by {
                assert forall|k: int| 0 <= k < self.history@.len() implies action_wf(
                    &(#[trigger] self.history@[k]),
                ) by {
                    if k < hist0.len() {
                        assert(self.history@[k] == hist0[k]);
                    }
                }
            }
        }
    }

    /// Pops and applies the most recent inverse, if there is one.
    pub fn undo(&mut self)
        requires
            old(self).wf(),
        ensures
            final(self).wf(),
            old(self).history@.len() == 0 ==> final(self).history@ == old(self).history@
                && *final(self) == (Matrix { history: final(self).history, ..*old(self) }),
            old(self).history@.len() > 0 ==> {
                &&& final(self).history@ == old(self).history@.drop_last()
                &&& final(self).instructions@ == action_grid_effect(
                    old(self).instructions@,
                    &old(self).history@.last(),
                )
                &&& final(self).dims == action_dims_effect(
                    old(self),
                    &old(self).history@.last(),
                )
                &&& final(self).mode == old(self).mode
                &&& final(self).simulating == old(self).simulating
                &&& final(self).sim_view() == old(self).sim_view()
            },
    {
        let popped = self.history.pop();
        match popped {
            None => {
                proof {
                    assert(self.history@ =~= old(self).history@);
                }
            },
            Some(a) => {
                proof {
                    assert(a == old(self).history@.last());
                    assert(action_wf(&a)) by {
                        assert(old(self).history@[old(self).history@.len() - 1] == a);
                    }
                    assert(actions_wf(self.history@)) by {
                        assert forall|k: int| 0 <= k < self.history@.len() implies action_wf(
                            &(#[trigger] self.history@[k]),
                        ) by {
                            assert(self.history@[k] == old(self).history@[k]);
                        }
                    }
                }
                self.apply_raw(a);
            },
        }
    }

    /// Sets the grid bounds directly; refused while simulating, below the
    /// dialect's minimum size, or beyond the engine's largest side.
    pub fn set_dims(&mut self, dims: Coord)
        requires
            old(self).wf(),
        ensures
            final(self).wf(),
            ({
                let accepted = !old(self).simulating && spec_min_dims(old(self).mode).x <= dims.x
                    && spec_min_dims(old(self).mode).y <= dims.y && dims.x <= MAX_DIM && dims.y
                    <= MAX_DIM;
                if accepted {
                    *final(self) == (Matrix { dims, ..*old(self) })
                } else {
                    *final(self) == *old(self)
                }
            }),
    {
        let minimum = match self.mode {
            MatrixMode::L3 => Coord { x: 1, y: 1 },
            MatrixMode::L3X => Coord { x: 2, y: 2 },
        };
        if !self.simulating && minimum.x <= dims.x && minimum.y <= dims.y && dims.x <= MAX_DIM
            && dims.y <= MAX_DIM {
            self.dims = dims;
        }
    }

    /// Extends the current selection to `end`, when `end` lies at or past
    /// the selection's start and within the engine's bounds.
    pub fn set_selection_end(&mut self, end: Coord)
        requires
            old(self).wf(),
        ensures
            final(self).wf(),
            ({
                match old(self).selecting {
                    Some(sel) => {
                        if sel.starts.x <= end.x && sel.starts.y <= end.y && end.x <= MAX_DIM
                            && end.y <= MAX_DIM {
                            *final(self) == (Matrix {
                                selecting: Some(Selection { starts: sel.starts, ends: end }),
                                ..*old(self)
                            })
                        } else {
                            *final(self) == *old(self)
                        }
                    },
                    None => *final(self) == *old(self),
                }
            }),
    {
        match self.selecting {
            Some(sel) => {
                if sel.starts.x <= end.x && sel.starts.y <= end.y && end.x <= MAX_DIM && end.y
                    <= MAX_DIM {
                    self.selecting = Some(Selection { starts: sel.starts, ends: end });
                }
            },
            None => (),
        }
    }

    /// Selects a region for editing and loads the text of its first cell
    /// into the editing buffer. Out-of-grid or inverted selections are
    /// ignored.
    pub fn edit(&mut self, location: Selection)
        requires
            old(self).wf(),
        ensures
            final(self).wf(),
            ({
                let accepted = 0 <= location.starts.x && 0 <= location.starts.y
                    && location.starts.x <= location.ends.x && location.starts.y
                    <= location.ends.y && location.ends.x < old(self).dims.x && location.ends.y
                    < old(self).dims.y;
                if accepted {
                    &&& final(self).selecting == Some(location)
                    &&& final(self).selecting_text@ == (if old(self).grid().contains_key(
                        loc_of(location.starts),
                    ) {
                        crate::l3x::iv_fmt(old(self).grid()[loc_of(location.starts)])
                    } else {
                        Seq::<char>::empty()
                    })
                    &&& *final(self) == (Matrix {
                        selecting: Some(location),
                        selecting_text: final(self).selecting_text,
                        ..*old(self)
                    })
                } else {
                    *final(self) == *old(self)
                }
            }),
    {
        if 0 <= location.starts.x && 0 <= location.starts.y && location.starts.x
            <= location.ends.x && location.starts.y <= location.ends.y && location.ends.x
            < self.dims.x && location.ends.y < self.dims.y {
            self.selecting = Some(location);
            match self.instructions.get(location.starts) {
                Some(x) => {
                    proof {
                        assert(iv_wf(x.deep_view()));
                        assert(x.wf());
                    }
                    self.selecting_text = x.to_string();
                },
                None => {
                    self.selecting_text = String::new();
                },
            }
        }
    }

    /// Clears the selection.
    pub fn stop_edit(&mut self)
        requires
            old(self).wf(),
        ensures
            final(self).wf(),
            *final(self) == (Matrix { selecting: None, ..*old(self) }),
    {
        self.selecting = None;
    }

    /// Records the current bounds on the undo stack, ending an interactive
    /// resize.
    pub fn finalize_resize(&mut self)
        requires
            old(self).wf(),
        ensures
            final(self).wf(),
            final(self).instructions@ == old(self).instructions@,
            final(self).dims == old(self).dims,
            final(self).history@.len() == old(self).history@.len() + 1,
            final(self).history@.last() == MatrixAction::Resize(old(self).dims),
    {
        let d = self.dims;
        self.apply(MatrixAction::Resize(d));
    }

    /// Forces the stream-input cell to hold a queue while in L3X mode,
    /// keeping the direction of whatever instruction was there.
    pub fn force_queue_l3x(&mut self)
        requires
            old(self).wf(),
        ensures
            final(self).wf(),
            old(self).mode == MatrixMode::L3 ==> *final(self) == *old(self),
            old(self).mode == MatrixMode::L3X ==> {
                &&& final(self).instructions@ == old(self).instructions@.insert(
                    (1, 0),
                    InstrView {
                        direction: if old(self).grid().contains_key((1, 0)) {
                            old(self).grid()[(1, 0)].direction
                        } else {
                            Direction::Down
                        },
                        command: crate::l3x::CmdView::Queue,
                    },
                )
                &&& *final(self) == (Matrix {
                    instructions: final(self).instructions,
                    ..*old(self)
                })
            },
    {
        if matches!(self.mode, MatrixMode::L3X) {
            let c = Coord { x: 1, y: 0 };
            let d = match self.instructions.get(c) {
                Some(x) => x.direction,
                None => Direction::Down,
            };
            self.instructions.insert(c, L3X { direction: d, command: L3XCommand::Queue });
            proof {
                assert(grid_wf(self.instructions@)) by {
                    assert forall|l: (int, int)|
                        #[trigger] self.grid().contains_key(l) implies iv_wf(
                        self.grid()[l],
                    ) by {}
                }
            }
        }
    }

    /// Whether the current selection covers the L3X stream-input cell.
    pub fn is_editing_input_stream(&self) -> (r: bool)
        ensures
            r == (self.mode == MatrixMode::L3X && match self.selecting {
                Some(sel) => sel.starts.x <= 1 <= sel.ends.x && sel.starts.y <= 0 <= sel.ends.y,
                None => false,
            }),
    {
        matches!(self.mode, MatrixMode::L3X) && match self.selecting {
            Some(sel) => sel.contains(Coord { x: 1, y: 0 }),
            None => false,
        }
    }

    /// Switches dialect: grows the grid to the dialect's minimum if needed
    /// and, in L3X mode, forces the stream-input queue into place.
    pub fn set_mode(&mut self, mode: MatrixMode)
        requires
            old(self).wf(),
        ensures
            final(self).wf(),
            final(self).mode == mode,
            final(self).dims.x as int == if old(self).dims.x >= spec_min_dims(mode).x {
                old(self).dims.x as int
            } else {
                spec_min_dims(mode).x as int
            },
            final(self).dims.y as int == if old(self).dims.y >= spec_min_dims(mode).y {
                old(self).dims.y as int
            } else {
                spec_min_dims(mode).y as int
            },
            mode == MatrixMode::L3 ==> final(self).instructions@ == old(self).instructions@,
            mode == MatrixMode::L3X ==> final(self).instructions@ == old(
                self,
            ).instructions@.insert(
                (1, 0),
                InstrView {
                    direction: if old(self).grid().contains_key((1, 0)) {
                        old(self).grid()[(1, 0)].direction
                    } else {
                        Direction::Down
                    },
                    command: crate::l3x::CmdView::Queue,
                },
            ),
            final(self).sim_view() == old(self).sim_view(),
            final(self).simulating == old(self).simulating,
    {
        self.mode = mode;
        let minimum = match mode {
            MatrixMode::L3 => Coord { x: 1, y: 1 },
            MatrixMode::L3X => Coord { x: 2, y: 2 },
        };
        let nx = if self.dims.x >= minimum.x {
            self.dims.x
        } else {
            minimum.x
        };
        let ny = if self.dims.y >= minimum.y {
            self.dims.y
        } else {
            minimum.y
        };
        self.dims = Coord { x: nx, y: ny };
        self.force_queue_l3x();
    }
}

impl Matrix {
    /// Transposes the whole grid: bounds swap, every cell moves to its
    /// mirrored coordinate, and every direction turns to its opposite. A
    /// live selection is re-anchored through `edit`.
    #[verifier::loop_isolation(false)]
    pub fn transpose(&mut self)
        requires
            old(self).wf(),
        ensures
            final(self).wf(),
            final(self).dims == (Coord { x: old(self).dims.y, y: old(self).dims.x }),
            forall|l: (int, int)|
                #[trigger] old(self).grid().contains_key(l) ==> final(self).grid().contains_key(
                    (l.1, l.0),
                ) && final(self).grid()[(l.1, l.0)] == (InstrView {
                    direction: old(self).grid()[l].direction.spec_opposite(),
                    command: old(self).grid()[l].command,
                }),
            forall|l: (int, int)|
                #[trigger] final(self).grid().contains_key(l) ==> old(self).grid().contains_key(
                    (l.1, l.0),
                ),
            final(self).mode == old(self).mode,
            final(self).simulating == old(self).simulating,
            final(self).sim_view() == old(self).sim_view(),
            final(self).history@ == old(self).history@,
            old(self).selecting is None ==> final(self).selecting is None,
    {
        let ghost ents = self.instructions.entries@;
        let ghost deep = crate::coord_map::entries_deep(ents);
        let ghost g0 = self.instructions@;
        let mut nm: CoordMap<L3X> = CoordMap::new();
        let n = self.instructions.entries.len();
        let mut i: usize = 0;
        while i < n
            invariant
                i <= n,
                n == ents.len(),
                nm.inv(),
                forall|k: int|
                    0 <= k < i ==> nm@.contains_key(
                        ((#[trigger] ents[k]).0.y as int, ents[k].0.x as int),
                    ) && nm@[(ents[k].0.y as int, ents[k].0.x as int)] == (InstrView {
                        direction: ents[k].1.deep_view().direction.spec_opposite(),
                        command: ents[k].1.deep_view().command,
                    }),
                forall|l: (int, int)|
                    #[trigger] nm@.contains_key(l) ==> exists|k: int|
                        0 <= k < i && loc_of(ents[k].0) == (l.1, l.0),
            decreases n - i,
        {
            let c = self.instructions.entries[i].0;
            let dup = self.instructions.entries[i].1.duplicate();
            let nv = L3X { direction: dup.direction.opposite(), command: dup.command };
            let nc = Coord { x: c.y, y: c.x };
            proof {
                assert(ents[i as int].0 == c);
                assert(dup.deep_view() == ents[i as int].1.deep_view());
                assert(nv.deep_view() == (InstrView {
                    direction: ents[i as int].1.deep_view().direction.spec_opposite(),
                    command: ents[i as int].1.deep_view().command,
                }));
            }
            let ghost nm_pre = nm@;
            nm.insert(nc, nv);
            proof {
                // earlier swapped keys are distinct from this one
                assert forall|k: int|
                    0 <= k < i + 1 implies nm@.contains_key(
                    ((#[trigger] ents[k]).0.y as int, ents[k].0.x as int),
                ) && nm@[(ents[k].0.y as int, ents[k].0.x as int)] == (InstrView {
                    direction: ents[k].1.deep_view().direction.spec_opposite(),
                    command: ents[k].1.deep_view().command,
                }) by {
                    if k < i {
                        assert(ents[k].0 != ents[i as int].0);
                        assert((ents[k].0.y as int, ents[k].0.x as int) != loc_of(nc));
                    }
                }
                assert forall|l: (int, int)| #[trigger] nm@.contains_key(l) implies exists|k: int|
                    0 <= k < i + 1 && loc_of(ents[k].0) == (l.1, l.0) by {
                    if l == loc_of(nc) {
                        assert(loc_of(ents[i as int].0) == (l.1, l.0));
                    } else {
                        assert(nm_pre.contains_key(l));
                    }
                }
            }
            i += 1;
        }
        proof {
            // relate the entry-level picture to the abstract grid map
            assert forall|l: (int, int)| #[trigger] g0.contains_key(l) implies nm@.contains_key(
                (l.1, l.0),
            ) && nm@[(l.1, l.0)] == (InstrView {
                direction: g0[l].direction.spec_opposite(),
                command: g0[l].command,
            }) by {
                crate::coord_map::lemma_assoc_contains(deep, l);
                let k = choose|k: int| 0 <= k < deep.len() && (#[trigger] deep[k]).0 == l;
                crate::coord_map::lemma_assoc_index(deep, k);
                assert(deep[k] == (loc_of(ents[k].0), ents[k].1.deep_view()));
                assert(g0[l] == ents[k].1.deep_view());
            }
            assert forall|l: (int, int)| #[trigger] nm@.contains_key(l) implies g0.contains_key(
                (l.1, l.0),
            ) by {
                let k = choose|k: int| 0 <= k < n && loc_of((#[trigger] ents[k]).0) == (l.1, l.0);
                assert(deep[k].0 == (l.1, l.0));
                crate::coord_map::lemma_assoc_contains(deep, (l.1, l.0));
            }
            assert(grid_wf(nm@)) by {
                assert forall|l: (int, int)| #[trigger] nm@.contains_key(l) implies iv_wf(nm@[l])
                    by {
                    assert(g0.contains_key((l.1, l.0)));
                    assert(nm@[l].command == g0[(l.1, l.0)].command) by {
                        assert(nm@.contains_key(((l.1, l.0).1, (l.1, l.0).0)));
                    }
                }
            }
        }
        self.instructions = nm;
        let d = self.dims;
        self.dims = Coord { x: d.y, y: d.x };
        match self.selecting {
            Some(sel) => {
                let moved = sel.transpose();
                self.edit(moved);
            },
            None => (),
        }
    }
}

} // verus!



