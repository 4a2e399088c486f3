//! Grid interchange as a rectangular table of cell texts. The core computes
//! and consumes the tables; the CSV encoding of a table runs through the
//! `csv` crate behind trusted wrappers.

use vstd::prelude::*;

use crate::coord_map::CoordMap;
use crate::coords::Coord;
use crate::coords::MAX_DIM;
use crate::l3x::iv_fmt;
use crate::l3x::spec_parse_maybe;
use crate::l3x::InstrView;
use crate::l3x::L3XParseError;
use crate::l3x::SpecInstr;
use crate::l3x::L3X;
use crate::matrix::grid_wf;
use crate::matrix::iv_wf;
use crate::matrix::Matrix;

verus! {

/// Why an import is refused.
#[derive(Debug, PartialEq, Eq, Structural, Clone, Copy)]
pub enum ImportError {
    /// The bytes are not a CSV table.
    Csv,
    /// The table is wider or taller than the engine's largest grid.
    TooLarge,
    /// A cell's text is not an instruction.
    Parse(L3XParseError),
}

/// The CSV encoding of a table of cell texts.
pub uninterp spec fn csv_bytes_of(rows: Seq<Seq<Seq<char>>>) -> Seq<u8>;

/// The table a CSV byte stream decodes to, if it decodes.
pub uninterp spec fn csv_rows_of(data: Seq<u8>) -> Option<Seq<Seq<Seq<char>>>>;

/// Relies on `csv::Writer`: serializes the rows as CSV records, in order,
/// into an in-memory buffer. The bytes depend on the rows alone.
#[verifier::external_body]
fn to_csv_bytes(rows: &Vec<Vec<String>>) -> (r: Vec<u8>)
    ensures
        r@ == csv_bytes_of(rows.deep_view()),
{
    let mut w = csv::WriterBuilder::new().has_headers(false).flexible(true).from_writer(
        Vec::new(),
    );
    for row in rows {
        let _ = w.write_record(row);
    }
    w.into_inner().unwrap_or_default()
}

/// Relies on `csv::Reader`: decodes CSV bytes into rows of fields, or
/// nothing when the bytes are not a CSV table. The outcome depends on the
/// bytes alone.
#[verifier::external_body]
fn from_csv_bytes(data: &Vec<u8>) -> (r: Option<Vec<Vec<String>>>)
    ensures
        match r {
            Some(rows) => csv_rows_of(data@) == Some(rows.deep_view()),
            None => csv_rows_of(data@) is None,
        },
{
    let mut rd = csv::ReaderBuilder::new().has_headers(false).flexible(true).from_reader(
        data.as_slice(),
    );
    let mut out: Vec<Vec<String>> = Vec::new();
    for rec in rd.records() {
        match rec {
            Ok(r) => out.push(r.iter().map(|f| f.to_string()).collect()),
            Err(_) => return None,
        }
    }
    Some(out)
}

/// The table of cell texts a grid exports: one row per grid row, blank
/// fields for empty cells.
pub open spec fn export_view(g: Map<(int, int), InstrView>, dims: (int, int)) -> Seq<
    Seq<Seq<char>>,
> {
    Seq::new(
        dims.1 as nat,
        |y: int|
            Seq::new(
                dims.0 as nat,
                |x: int|
                    if g.contains_key((x, y)) {
                        iv_fmt(g[(x, y)])
                    } else {
                        Seq::<char>::empty()
                    },
            ),
    )
}

pub open spec fn cell_parse(rows: Seq<Seq<Seq<char>>>, y: int, x: int) -> Result<
    Option<SpecInstr>,
    L3XParseError,
> {
    spec_parse_maybe(rows[y][x])
}

pub open spec fn cell_some(rows: Seq<Seq<Seq<char>>>, y: int, x: int) -> bool {
    cell_parse(rows, y, x) matches Ok(Some(_))
}

pub open spec fn in_table(rows: Seq<Seq<Seq<char>>>, y: int, x: int) -> bool {
    0 <= y < rows.len() && 0 <= x < rows[y].len()
}

/// What a successful import leaves behind: exactly the parsed cells, at
/// their table coordinates, with the bounds hugging the filled cells.
pub open spec fn import_ok_post(m0: &Matrix, m1: &Matrix, rows: Seq<Seq<Seq<char>>>) -> bool {
    &&& forall|y: int, x: int|
        in_table(rows, y, x) ==> !(#[trigger] cell_parse(rows, y, x) is Err)
    &&& forall|y: int, x: int|
        in_table(rows, y, x) && #[trigger] cell_some(rows, y, x) ==> m1.grid().contains_key(
            (x, y),
        ) && (cell_parse(rows, y, x) matches Ok(oo) && oo matches Some(si)
            && iv_matches_spec(m1.grid()[(x, y)], si))
    &&& forall|l: (int, int)|
        #[trigger] m1.grid().contains_key(l) ==> in_table(rows, l.1, l.0) && cell_some(
            rows,
            l.1,
            l.0,
        )
    &&& forall|y: int, x: int|
        in_table(rows, y, x) && #[trigger] cell_some(rows, y, x) ==> x < m1.dims.x && y
            < m1.dims.y
    &&& 1 <= m1.dims.x <= MAX_DIM
    &&& 1 <= m1.dims.y <= MAX_DIM
    &&& (m1.dims.x == 1 || exists|y: int, x: int|
        in_table(rows, y, x) && #[trigger] cell_some(rows, y, x) && x == m1.dims.x - 1)
    &&& (m1.dims.y == 1 || exists|y: int, x: int|
        in_table(rows, y, x) && #[trigger] cell_some(rows, y, x) && y == m1.dims.y - 1)
    &&& m1.mode == m0.mode
    &&& m1.simulating == m0.simulating
    &&& m1.sim_view() == m0.sim_view()
    &&& m1.history@ == m0.history@
    &&& m1.selecting == m0.selecting
}

/// A grid cell view carries what a parsed instruction promises.
pub open spec fn iv_matches_spec(iv: InstrView, si: SpecInstr) -> bool {
    &&& iv.direction == si.direction
    &&& match iv.command {
        crate::l3x::CmdView::Multiply(s) => crate::registers::wf_factors(s)
            && si.command == crate::l3x::SpecCommand::MulBy(crate::numeral::value_of(s)),
        crate::l3x::CmdView::Duplicate => si.command == crate::l3x::SpecCommand::Duplicate,
        crate::l3x::CmdView::Queue => si.command == crate::l3x::SpecCommand::Queue,
        crate::l3x::CmdView::Annihilate => si.command == crate::l3x::SpecCommand::Annihilate,
    }
}

impl Matrix {
    /// The grid as a table of cell texts, row by row; empty cells are blank.
    #[verifier::loop_isolation(false)]
    pub fn export_rows(&self) -> (r: Vec<Vec<String>>)
        requires
            self.wf(),
        ensures
            r.deep_view() == export_view(self.grid(), self.dims_v()),
    {
        let ghost ev = export_view(self.grid(), self.dims_v());
        let mut rows: Vec<Vec<String>> = Vec::new();
        let h = self.dims.y;
        let w = self.dims.x;
        let mut y: i32 = 0;
        while y < h
            invariant
                0 <= y <= h,
                rows@.len() == y,
                forall|a: int| 0 <= a < y ==> (#[trigger] rows.deep_view()[a]) == ev[a],
            decreases h - y,
        {
            let mut row: Vec<String> = Vec::new();
            let mut x: i32 = 0;
            while x < w
                invariant
                    0 <= y < h,
                    0 <= x <= w,
                    row@.len() == x,
                    forall|b: int| 0 <= b < x ==> (#[trigger] row.deep_view()[b]) == ev[y as int][b],
                decreases w - x,
            {
                let c = Coord { x, y };
                let cell = match self.instructions.get(c) {
                    Some(ins) => {
                        proof {
                            assert(iv_wf(ins.deep_view()));
                            assert(ins.wf());
                        }
                        ins.to_string()
                    },
                    None => String::new(),
                };
                let ghost pre = row.deep_view();
                row.push(cell);
                proof {
                    assert(row.deep_view() =~= pre.push(row@[x as int]@));
                    assert(ev[y as int][x as int] == (if self.grid().contains_key(
                        (x as int, y as int),
                    ) {
                        iv_fmt(self.grid()[(x as int, y as int)])
                    } else {
                        Seq::<char>::empty()
                    }));
                }
                x += 1;
            }
            let ghost rpre = rows.deep_view();
            rows.push(row);
            proof {
                assert(rows.deep_view() =~= rpre.push(rows@[y as int].deep_view()));
                assert(rows.deep_view()[y as int] =~= ev[y as int]);
            }
            y += 1;
        }
        proof {
            assert(rows.deep_view() =~= ev);
        }
        rows
    }

    /// The grid serialized as CSV bytes.
    pub fn export_data(&self) -> (r: Vec<u8>)
        requires
            self.wf(),
        ensures
            r@ == csv_bytes_of(export_view(self.grid(), self.dims_v())),
    {
        let rows = self.export_rows();
        to_csv_bytes(&rows)
    }

    /// Replaces the grid with a parsed table of cell texts: each non-blank
    /// cell must parse, the new bounds hug the filled cells, and nothing
    /// changes when any cell fails.
    #[verifier::loop_isolation(false)]
    pub fn import_rows(&mut self, rows: &Vec<Vec<String>>) -> (r: Result<(), L3XParseError>)
        requires
            old(self).wf(),
            rows@.len() <= MAX_DIM,
            forall|y: int| 0 <= y < rows@.len() ==> (#[trigger] rows@[y])@.len() <= MAX_DIM,
        ensures
            final(self).wf(),
            match r {
                Ok(()) => import_ok_post(old(self), final(self), rows.deep_view()),
                Err(e) => *final(self) == *old(self) && exists|y: int, x: int|
                    in_table(rows.deep_view(), y, x) && #[trigger] cell_parse(
                        rows.deep_view(),
                        y,
                        x,
                    ) == Err::<Option<SpecInstr>, L3XParseError>(e),
            },
    {
        let ghost rv = rows.deep_view();
        let mut nm: CoordMap<L3X> = CoordMap::new();
        let mut maxx: i32 = 0;
        let mut maxy: i32 = 0;
        let h = rows.len();
        let mut y: usize = 0;
        while y < h
            invariant
                y <= h,
                h == rows@.len(),
                rv == rows.deep_view(),
                nm.inv(),
                0 <= maxx <= MAX_DIM,
                0 <= maxy <= MAX_DIM,
                forall|a: int, b: int|
                    0 <= a < y && in_table(rv, a, b) ==> !(#[trigger] cell_parse(rv, a, b) is Err),
                forall|a: int, b: int|
                    0 <= a < y && in_table(rv, a, b) && #[trigger] cell_some(rv, a, b)
                        ==> nm@.contains_key((b, a)) && (cell_parse(rv, a, b) matches Ok(oo)
                        && oo matches Some(si) && iv_matches_spec(nm@[(b, a)], si)),
                forall|l: (int, int)|
                    #[trigger] nm@.contains_key(l) ==> 0 <= l.1 < y && in_table(rv, l.1, l.0)
                        && cell_some(rv, l.1, l.0),
                forall|a: int, b: int|
                    0 <= a < y && in_table(rv, a, b) && #[trigger] cell_some(rv, a, b) ==> b < maxx
                        && a < maxy,
                maxx == 0 || exists|a: int, b: int|
                    0 <= a < y && in_table(rv, a, b) && #[trigger] cell_some(rv, a, b) && b == maxx
                        - 1,
                maxy == 0 || exists|a: int, b: int|
                    0 <= a < y && in_table(rv, a, b) && #[trigger] cell_some(rv, a, b) && a == maxy
                        - 1,
                grid_wf(nm@),
            decreases h - y,
        {
            let row_len = rows[y].len();
            proof {
                assert(rv[y as int].len() == row_len);
            }
            let mut x: usize = 0;
            while x < row_len
                invariant
                    y < h,
                    x <= row_len,
                    row_len == rows@[y as int]@.len(),
                    nm.inv(),
                    0 <= maxx <= MAX_DIM,
                    0 <= maxy <= MAX_DIM,
                    forall|a: int, b: int|
                        (0 <= a < y || (a == y && 0 <= b < x)) && in_table(rv, a, b) ==> !(
                        #[trigger] cell_parse(rv, a, b) is Err),
                    forall|a: int, b: int|
                        (0 <= a < y || (a == y && 0 <= b < x)) && in_table(rv, a, b)
                            && #[trigger] cell_some(rv, a, b) ==> nm@.contains_key((b, a)) && (
                        cell_parse(rv, a, b) matches Ok(oo) && oo matches Some(si)
                            && iv_matches_spec(nm@[(b, a)], si)),
                    forall|l: (int, int)|
                        #[trigger] nm@.contains_key(l) ==> (0 <= l.1 < y || (l.1 == y && 0 <= l.0
                            < x)) && in_table(rv, l.1, l.0) && cell_some(rv, l.1, l.0),
                    forall|a: int, b: int|
                        (0 <= a < y || (a == y && 0 <= b < x)) && in_table(rv, a, b)
                            && #[trigger] cell_some(rv, a, b) ==> b < maxx && a < maxy,
                    maxx == 0 || exists|a: int, b: int|
                        (0 <= a < y || (a == y && 0 <= b < x)) && in_table(rv, a, b)
                            && #[trigger] cell_some(rv, a, b) && b == maxx - 1,
                    maxy == 0 || exists|a: int, b: int|
                        (0 <= a < y || (a == y && 0 <= b < x)) && in_table(rv, a, b)
                            && #[trigger] cell_some(rv, a, b) && a == maxy - 1,
                    grid_wf(nm@),
                decreases row_len - x,
            {
                let text = &rows[y][x];
                proof {
                    assert(rv[y as int][x as int] == text@);
                    assert(in_table(rv, y as int, x as int));
                }
                match L3X::parse_maybe(text.as_str()) {
                    Err(e) => {
                        proof {
                            assert(cell_parse(rv, y as int, x as int) == Err::<
                                Option<SpecInstr>,
                                L3XParseError,
                            >(e));
                        }
                        return Err(e);
                    },
                    Ok(None) => {
                        proof {
                            assert(!cell_some(rv, y as int, x as int));
                        }
                    },
                    Ok(Some(ins)) => {
                        let c = Coord { x: x as i32, y: y as i32 };
                        let ghost nm_pre = nm@;
                        proof {
                            assert(cell_some(rv, y as int, x as int));
                            assert(iv_wf(ins.deep_view()));
                        }
                        nm.insert(c, ins);
                        if maxx < x as i32 + 1 {
                            maxx = x as i32 + 1;
                        }
                        if maxy < y as i32 + 1 {
                            maxy = y as i32 + 1;
                        }
                        proof {
                            assert(nm@.contains_key((x as int, y as int)));
                            assert forall|l: (int, int)| #[trigger] nm@.contains_key(l) implies (
                            0 <= l.1 < y || (l.1 == y && 0 <= l.0 < x + 1)) && in_table(
                                rv,
                                l.1,
                                l.0,
                            ) && cell_some(rv, l.1, l.0) by {
                                if l != (x as int, y as int) {
                                    assert(nm_pre.contains_key(l));
                                }
                            }
                            assert(grid_wf(nm@)) by {
                                assert forall|l: (int, int)|
                                    #[trigger] nm@.contains_key(l) implies iv_wf(nm@[l]) by {
                                    if l != (x as int, y as int) {
                                        assert(nm_pre.contains_key(l));
                                    }
                                }
                            }
                        }
                    },
                }
                x += 1;
            }
            y += 1;
        }
        let dx: i32 = if maxx < 1 {
            1
        } else {
            maxx
        };
        let dy: i32 = if maxy < 1 {
            1
        } else {
            maxy
        };
        self.instructions = nm;
        self.dims = Coord { x: dx, y: dy };
        Ok(())
    }

    /// Decodes CSV bytes and imports the table, leaving the grid unchanged
    /// on any failure.
    #[verifier::loop_isolation(false)]
    #[verifier::rlimit(100)]
    #[verifier::spinoff_prover]
    pub fn import_data(&mut self, data: &Vec<u8>) -> (r: Result<(), ImportError>)
        requires
            old(self).wf(),
        ensures
            final(self).wf(),
            r is Ok ==> csv_rows_of(data@) is Some && import_ok_post(
                old(self),
                final(self),
                csv_rows_of(data@).unwrap(),
            ),
            r is Err ==> *final(self) == *old(self),
            r == Err::<(), ImportError>(ImportError::Csv) ==> csv_rows_of(data@) is None,
            r == Err::<(), ImportError>(ImportError::TooLarge) ==> csv_rows_of(data@) is Some && (
            csv_rows_of(data@).unwrap().len() > MAX_DIM || exists|y: int|
                0 <= y < csv_rows_of(data@).unwrap().len() && (#[trigger] csv_rows_of(
                    data@,
                ).unwrap()[y]).len() > MAX_DIM),
            r matches Err(ImportError::Parse(e)) ==> csv_rows_of(data@) matches Some(rows)
                && exists|y: int, x: int|
                in_table(rows, y, x) && #[trigger] cell_parse(rows, y, x) == Err::<
                    Option<SpecInstr>,
                    L3XParseError,
                >(e),
    {
        let rows = match from_csv_bytes(data) {
            Some(rows) => rows,
            None => {
                return Err(ImportError::Csv);
            },
        };
        if rows.len() > MAX_DIM as usize {
            proof {
                assert(rows.deep_view().len() == rows@.len());
            }
            return Err(ImportError::TooLarge);
        }
        let n = rows.len();
        let mut y: usize = 0;
        while y < n
            invariant
                y <= n,
                n == rows@.len(),
                forall|a: int| 0 <= a < y ==> (#[trigger] rows@[a])@.len() <= MAX_DIM,
            decreases n - y,
        {
            if rows[y].len() > MAX_DIM as usize {
                proof {
                    let rdv = rows.deep_view();
                    assert(rdv[y as int] == rows@[y as int].deep_view());
                    assert(rdv[y as int].len() == rows@[y as int]@.len());
                    assert(0 <= y < rdv.len() && rdv[y as int].len() > MAX_DIM);
                }
                return Err(ImportError::TooLarge);
            }
            y += 1;
        }
        let res = self.import_rows(&rows);
        match res {
            Ok(()) => {
                proof {
                    assert(csv_rows_of(data@) == Some(rows.deep_view()));
                    assert(import_ok_post(old(self), self, rows.deep_view()));
                }
                Ok(())
            },
            Err(e) => {
                proof {
                    let rws = rows.deep_view();
                    assert(csv_rows_of(data@) == Some(rws));
                    let (yy, xx) = choose|y: int, x: int|
                        in_table(rws, y, x) && #[trigger] cell_parse(rws, y, x) == Err::<
                            Option<SpecInstr>,
                            L3XParseError,
                        >(e);
                    assert(in_table(csv_rows_of(data@).unwrap(), yy, xx));
                    assert(cell_parse(csv_rows_of(data@).unwrap(), yy, xx) == Err::<
                        Option<SpecInstr>,
                        L3XParseError,
                    >(e));
                }
                Err(ImportError::Parse(e))
            },
        }
    }
}

} // verus!
