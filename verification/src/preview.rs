//! Sheet previews: the hits of a keyword, the window around the first one
//! (or a requested one), and the header row, from worksheet XML or from a
//! grid of cell texts.
use vstd::prelude::*;
use crate::matching::{cell_matches_spec, matches_in_mode, MatchMode};
use crate::sheet_scan::{scan_sheet, scan_spec, CellSink, Flow, SinkModel};
use crate::sheet_xml::strings_view;
use crate::types::{grid_view, hit_view, hits_view, row_view, Hit, HitView, PreviewResponse, PreviewView, preview_view};

verus! {

/// A row without its trailing empty cells.
pub open spec fn trim_row_spec(r: Seq<Seq<char>>) -> Seq<Seq<char>>
    decreases r.len(),
{
    if r.len() == 0 {
        r
    } else if r.last().len() > 0 {
        r
    } else {
        trim_row_spec(r.drop_last())
    }
}

pub proof fn lemma_trim_row_prefix(r: Seq<Seq<char>>)
    ensures
        trim_row_spec(r).len() <= r.len(),
        trim_row_spec(r) == r.take(trim_row_spec(r).len() as int),
        trim_row_spec(r).len() > 0 ==> trim_row_spec(r).last().len() > 0,
        forall|i: int| trim_row_spec(r).len() <= i < r.len() ==> (#[trigger] r[i]).len() == 0,
    decreases r.len(),
{
    if r.len() == 0 {
        assert(r.take(0) =~= r);
    } else if r.last().len() > 0 {
        assert(r.take(r.len() as int) =~= r);
    } else {
        lemma_trim_row_prefix(r.drop_last());
        let t = trim_row_spec(r.drop_last());
        assert(r.drop_last().take(t.len() as int) =~= r.take(t.len() as int));
        assert forall|i: int| t.len() <= i < r.len() implies (#[trigger] r[i]).len() == 0 by {
            if i < r.len() - 1 {
                assert(r[i] == r.drop_last()[i]);
            }
        }
    }
}

/// Drops the trailing empty cells of a row.
pub fn trim_row(row: &[String]) -> (r: Vec<String>)
    ensures
        row_view(r@) == trim_row_spec(row_view(row@)),
{
    let ghost rv = row_view(row@);
    let mut n = row.len();
    assert(rv.take(n as int) =~= rv);
    while n > 0 && row[n - 1].as_str().is_empty()
        invariant
            n <= row@.len(),
            rv == row_view(row@),
            trim_row_spec(rv) == trim_row_spec(rv.take(n as int)),
        decreases n,
    {
        assert(rv.take(n as int).drop_last() =~= rv.take(n - 1));
        n = n - 1;
    }
    let mut out: Vec<String> = Vec::new();
    let mut i: usize = 0;
    while i < n
        invariant
            i <= n <= row@.len(),
            rv == row_view(row@),
            row_view(out@) == rv.take(i as int),
        decreases n - i,
    {
        let ghost before = row_view(out@);
        out.push(row[i].clone());
        assert(row_view(out@) =~= before.push(rv[i as int]));
        assert(rv.take(i + 1) =~= rv.take(i as int).push(rv[i as int]));
        i = i + 1;
    }
    assert(rv.take(n as int).take(n as int) =~= rv.take(n as int));
    assert(n > 0 ==> rv.take(n as int).last() == rv[n - 1]);
    out
}

pub open spec fn sat_sub(a: usize, b: usize) -> usize {
    if a >= b {
        (a - b) as usize
    } else {
        0
    }
}

pub open spec fn max1(a: usize) -> usize {
    if a >= 1 {
        a
    } else {
        1
    }
}

/// Top-left (row, column) of the preview window: a requested start (column
/// 1 unless given), else three rows above and two columns left of the first
/// hit, not before row or column 1, else row 2, column 1.
pub open spec fn window_spec(first: Option<HitView>, start_row: Option<usize>, start_col: Option<usize>) -> (usize, usize) {
    match start_row {
        Some(r) => (r, match start_col {
            Some(c) => c,
            None => 1,
        }),
        None => match first {
            Some(h) => (max1(sat_sub(h.row as usize, 3)), max1(sat_sub(h.col as usize, 2))),
            None => (2, 1),
        },
    }
}

/// The top-left cell of the preview window.
pub fn preview_window(first_hit: Option<&Hit>, start_row: Option<usize>, start_col: Option<usize>) -> (r: (usize, usize))
    ensures
        r == window_spec(
            match first_hit {
                Some(h) => Some(hit_view(*h)),
                None => None,
            },
            start_row,
            start_col,
        ),
{
    if let Some(row) = start_row {
        (row, match start_col {
            Some(c) => c,
            None => 1,
        })
    } else if let Some(h) = first_hit {
        let r = h.row as usize;
        let c = h.col as usize;
        let r2 = if r >= 3 { r - 3 } else { 0 };
        let c2 = if c >= 2 { c - 2 } else { 0 };
        (if r2 >= 1 { r2 } else { 1 }, if c2 >= 1 { c2 } else { 1 })
    } else {
        (2, 1)
    }
}

/// Collects the cells that match a keyword, stopping at `max_hits` (at
/// least one hit is always taken).
pub struct HitSink {
    pub keyword: String,
    pub mode: MatchMode,
    pub max_hits: usize,
    pub hits: Vec<Hit>,
}

pub ghost struct HitModel {
    pub keyword: Seq<char>,
    pub mode: MatchMode,
    pub max_hits: usize,
    pub hits: Seq<HitView>,
}

impl SinkModel for HitModel {
    open spec fn wants(&self, row: usize, col: usize) -> bool {
        true
    }

    open spec fn next(&self, row: usize, col: usize, value: Seq<char>) -> (HitModel, bool) {
        if cell_matches_spec(value, self.keyword, self.mode) {
            let h = self.hits.push(HitView { row: row as i64, col: col as i64, value });
            (HitModel { hits: h, ..*self }, h.len() < self.max_hits)
        } else {
            (*self, true)
        }
    }
}

impl CellSink for HitSink {
    type M = HitModel;

    open spec fn model(&self) -> HitModel {
        HitModel {
            keyword: self.keyword@,
            mode: self.mode,
            max_hits: self.max_hits,
            hits: hits_view(self.hits@),
        }
    }

    fn admits(&self, row: usize, col: usize) -> (b: bool) {
        true
    }

    fn accept(&mut self, row: usize, col: usize, value: String) -> (go: bool) {
        if matches_in_mode(value.as_str(), self.keyword.as_str(), self.mode) {
            let ghost before = hits_view(self.hits@);
            self.hits.push(Hit { row: row as i64, col: col as i64, value });
            assert(hits_view(self.hits@) =~= before.push(hit_view(self.hits@.last())));
            self.hits.len() < self.max_hits
        } else {
            true
        }
    }
}

} // verus!

verus! {

pub open spec fn empties(n: int) -> Seq<Seq<char>> {
    Seq::new(n as nat, |i: int| Seq::<char>::empty())
}

/// Gathers the header row (row 1, columns `1..=pc`) and the window of `pr`
/// rows from row `wr` (at least 1) by columns `cs + 1 ..= cs + pc`. A cell
/// of row 1 may go to both.
pub struct WindowSink {
    pub pr: usize,
    pub pc: usize,
    pub wr: usize,
    pub cs: usize,
    pub header: Vec<String>,
    pub data: Vec<Vec<String>>,
}

pub ghost struct WindowModel {
    pub pr: usize,
    pub pc: usize,
    pub wr: usize,
    pub cs: usize,
    pub header: Seq<Seq<char>>,
    pub data: Seq<Seq<Seq<char>>>,
}

/// Whether (`row`, `col`) is a header cell: row 1, columns `1..=pc`.
pub open spec fn header_cell(m: WindowModel, row: usize, col: usize) -> bool {
    row == 1 && 1 <= col && col <= m.pc
}

/// Whether (`row`, `col`) lies in the window.
pub open spec fn window_cell(m: WindowModel, row: usize, col: usize) -> bool {
    row >= m.wr && row - m.wr < m.pr && col > m.cs && col - m.cs <= m.pc
}

/// A row grown with empty cells to `n` cells.
pub open spec fn pad_row(h: Seq<Seq<char>>, n: int) -> Seq<Seq<char>> {
    if h.len() < n {
        h + empties(n - h.len())
    } else {
        h
    }
}

/// Rows grown with rows of `pc` empty cells to `n` rows.
pub open spec fn pad_rows(d: Seq<Seq<Seq<char>>>, n: int, pc: int) -> Seq<Seq<Seq<char>>> {
    if d.len() < n {
        d + Seq::new((n - d.len()) as nat, |i: int| empties(pc))
    } else {
        d
    }
}

impl SinkModel for WindowModel {
    open spec fn wants(&self, row: usize, col: usize) -> bool {
        header_cell(*self, row, col) || window_cell(*self, row, col)
    }

    /// A header cell goes to its column of the header (grown to `pc`
    /// cells), a window cell to its place in the window (rows grown with
    /// `pc` empty cells); the scan always goes on.
    open spec fn next(&self, row: usize, col: usize, value: Seq<char>) -> (WindowModel, bool) {
        let m1 = if header_cell(*self, row, col) {
            WindowModel { header: pad_row(self.header, self.pc as int).update(col - 1, value), ..*self }
        } else {
            *self
        };
        let m2 = if window_cell(*self, row, col) {
            let ri = row - self.wr;
            let d = pad_rows(self.data, ri + 1, self.pc as int);
            if col - self.cs - 1 < d[ri].len() {
                WindowModel { data: d.update(ri, d[ri].update(col - self.cs - 1, value)), ..m1 }
            } else {
                WindowModel { data: d, ..m1 }
            }
        } else {
            m1
        };
        (m2, true)
    }
}

impl CellSink for WindowSink {
    type M = WindowModel;

    open spec fn model(&self) -> WindowModel {
        WindowModel {
            pr: self.pr,
            pc: self.pc,
            wr: self.wr,
            cs: self.cs,
            header: row_view(self.header@),
            data: grid_view(self.data@),
        }
    }

    fn admits(&self, row: usize, col: usize) -> (b: bool) {
        (row == 1 && 1 <= col && col <= self.pc) || (row >= self.wr && row - self.wr < self.pr && col > self.cs
            && col - self.cs <= self.pc)
    }

    fn accept(&mut self, row: usize, col: usize, value: String) -> (go: bool) {
        let ghost m0 = self.model();
        if row == 1 && 1 <= col && col <= self.pc {
            let ghost h0 = row_view(self.header@);
            if self.header.len() < self.pc {
                let pc = self.pc;
                self.header.resize(pc, String::new());
                assert(row_view(self.header@) =~= h0 + empties(self.pc - h0.len()));
            }
            let ghost hv = row_view(self.header@);
            assert(hv == pad_row(h0, self.pc as int));
            self.header.set(col - 1, value.clone());
            assert(row_view(self.header@) =~= hv.update(col - 1, value@));
        }
        let ghost m1 = self.model();
        if row >= self.wr && row - self.wr < self.pr && col > self.cs && col - self.cs <= self.pc {
            let ri = row - self.wr;
            let ghost d0 = grid_view(self.data@);
            if self.data.len() < ri + 1 {
                let pc = self.pc;
                let blank: Vec<String> = vec![String::new(); pc];
                assert(row_view(blank@) =~= empties(pc as int));
                self.data.resize(ri + 1, blank);
                assert(grid_view(self.data@) =~= d0 + Seq::new((ri + 1 - d0.len()) as nat, |i: int| empties(pc as int)));
            }
            let ghost dv = grid_view(self.data@);
            assert(dv == pad_rows(d0, ri + 1, self.pc as int));
            if col - self.cs - 1 < self.data[ri].len() {
                let ci = col - self.cs - 1;
                let mut r = self.data[ri].clone();
                assert(r@ =~= self.data@[ri as int]@);
                assert(row_view(r@) == dv[ri as int]);
                r.set(ci, value);
                assert(row_view(r@) =~= dv[ri as int].update(ci as int, value@));
                self.data.set(ri, r);
                assert(grid_view(self.data@) =~= dv.update(ri as int, dv[ri as int].update(ci as int, value@)));
            }
        }
        true
    }
}

} // verus!

verus! {

pub open spec fn opt_view(k: Option<&str>) -> Option<Seq<char>> {
    match k {
        Some(s) => Some(s@),
        None => None,
    }
}

pub open spec fn trim_rows(d: Seq<Seq<Seq<char>>>) -> Seq<Seq<Seq<char>>> {
    d.map_values(|r: Seq<Seq<char>>| trim_row_spec(r))
}

pub open spec fn first_of(h: Seq<HitView>) -> Option<HitView> {
    if h.len() > 0 {
        Some(h[0])
    } else {
        None
    }
}

/// The first row of the window that starts at row `wr` (row 0 counts as
/// row 1).
pub open spec fn top_row(wr: usize) -> usize {
    max1(wr)
}

/// `a + b`, or `usize::MAX` where that does not fit.
pub open spec fn sat_add(a: usize, b: usize) -> usize {
    if a + b > usize::MAX {
        usize::MAX
    } else {
        (a + b) as usize
    }
}

/// The preview of a worksheet's XML: the hits of the keyword (all rows,
/// at most `max_hits`, at least one), the window of `pr` rows by `pc`
/// columns from the start `window_spec` gives, and the header row (row 1,
/// columns `1..=pc`). `None` only on a row or column number that overflows
/// `usize`.
pub open spec fn sheet_preview_spec(
    x: Seq<u8>,
    sst: Seq<Seq<char>>,
    keyword: Option<Seq<char>>,
    mode: MatchMode,
    max_hits: usize,
    pr: usize,
    pc: usize,
    start_row: Option<usize>,
    start_col: Option<usize>,
) -> Option<PreviewView> {
    let hm0 = HitModel {
        keyword: match keyword {
            Some(k) => k,
            None => seq![],
        },
        mode,
        max_hits,
        hits: seq![],
    };
    let (hm, hf) = match keyword {
        Some(k) => scan_spec(x, sst, usize::MAX, hm0),
        None => (hm0, Flow::Done),
    };
    if hf == Flow::Fault {
        None
    } else {
        let (wr, wc) = window_spec(first_of(hm.hits), start_row, start_col);
        let top = top_row(wr);
        let wm0 = WindowModel { pr, pc, wr: top, cs: sat_sub(wc, 1), header: seq![], data: seq![] };
        let (wm, wf) = scan_spec(x, sst, sat_add(top, pr), wm0);
        if wf == Flow::Fault {
            None
        } else {
            Some(
                PreviewView {
                    hits: hm.hits,
                    data: trim_rows(wm.data),
                    header_row: trim_row_spec(wm.header),
                    start_row: wr,
                    start_col: wc,
                },
            )
        }
    }
}

fn trim_all(data: Vec<Vec<String>>) -> (r: Vec<Vec<String>>)
    ensures
        grid_view(r@) == trim_rows(grid_view(data@)),
{
    let mut out: Vec<Vec<String>> = Vec::new();
    let mut i: usize = 0;
    while i < data.len()
        invariant
            i <= data@.len(),
            grid_view(out@) == trim_rows(grid_view(data@)).take(i as int),
        decreases data@.len() - i,
    {
        let t = trim_row(data[i].as_slice());
        let ghost before = grid_view(out@);
        out.push(t);
        assert(grid_view(out@) =~= before.push(row_view(t@)));
        assert(trim_rows(grid_view(data@)).take(i + 1) =~= trim_rows(grid_view(data@)).take(i as int).push(
            trim_row_spec(grid_view(data@)[i as int]),
        ));
        i = i + 1;
    }
    assert(trim_rows(grid_view(data@)).take(i as int) =~= trim_rows(grid_view(data@)));
    out
}

/// The preview of one worksheet, read from its XML and the shared strings.
/// `None` exactly on a row or column number that overflows `usize` (see
/// `sheet_preview_spec`).
pub fn preview_from_sheet_xml(
    sheet_xml: &[u8],
    sst: &Vec<String>,
    keyword: Option<&str>,
    mode: MatchMode,
    max_hits: usize,
    preview_rows: usize,
    preview_cols: usize,
    start_row: Option<usize>,
    start_col: Option<usize>,
) -> (r: Option<PreviewResponse>)
    requires
        sheet_xml@.len() <= isize::MAX,
    ensures
        match r {
            Some(p) => sheet_preview_spec(
                sheet_xml@,
                strings_view(sst@),
                opt_view(keyword),
                mode,
                max_hits,
                preview_rows,
                preview_cols,
                start_row,
                start_col,
            ) == Some(preview_view(p)),
            None => sheet_preview_spec(
                sheet_xml@,
                strings_view(sst@),
                opt_view(keyword),
                mode,
                max_hits,
                preview_rows,
                preview_cols,
                start_row,
                start_col,
            ) is None,
        },
{
    let kw: String = match keyword {
        Some(k) => k.to_owned(),
        None => String::new(),
    };
    let mut hs = HitSink { keyword: kw, mode, max_hits, hits: Vec::new() };
    assert(hits_view(hs.hits@) =~= Seq::<HitView>::empty());
    if keyword.is_some() {
        let f = scan_sheet(sheet_xml, sst, usize::MAX, &mut hs);
        if f == Flow::Fault {
            return None;
        }
    }
    let hits = hs.hits;
    let first = if hits.len() > 0 {
        Some(&hits[0])
    } else {
        None
    };
    let (window_row, window_col) = preview_window(first, start_row, start_col);
    let col_start = if window_col >= 1 {
        window_col - 1
    } else {
        0
    };
    let top = if window_row >= 1 {
        window_row
    } else {
        1
    };
    let max_row = if top > usize::MAX - preview_rows {
        usize::MAX
    } else {
        top + preview_rows
    };
    let mut ws = WindowSink {
        pr: preview_rows,
        pc: preview_cols,
        wr: top,
        cs: col_start,
        header: Vec::new(),
        data: Vec::new(),
    };
    assert(row_view(ws.header@) =~= Seq::<Seq<char>>::empty());
    assert(grid_view(ws.data@) =~= Seq::<Seq<Seq<char>>>::empty());
    let f = scan_sheet(sheet_xml, sst, max_row, &mut ws);
    if f == Flow::Fault {
        return None;
    }
    let data = trim_all(ws.data);
    let header_row = trim_row(ws.header.as_slice());
    Some(PreviewResponse { hits, data, header_row, start_row: window_row, start_col: window_col })
}

} // verus!

verus! {

/// The matches in row `ri` of a grid from column `ci` on.
pub open spec fn row_hits(g: Seq<Seq<Seq<char>>>, ri: int, ci: int, k: Seq<char>, mode: MatchMode) -> Seq<HitView>
    decreases g[ri].len() - ci,
{
    if ci < 0 || ci >= g[ri].len() {
        seq![]
    } else {
        let rest = row_hits(g, ri, ci + 1, k, mode);
        if cell_matches_spec(g[ri][ci], k, mode) {
            seq![HitView { row: (ri + 1) as i64, col: (ci + 1) as i64, value: g[ri][ci] }] + rest
        } else {
            rest
        }
    }
}

/// All matches of a grid from row `ri` on, row by row, left to right.
pub open spec fn grid_hits(g: Seq<Seq<Seq<char>>>, ri: int, k: Seq<char>, mode: MatchMode) -> Seq<HitView>
    decreases g.len() - ri,
{
    if ri < 0 || ri >= g.len() {
        seq![]
    } else {
        row_hits(g, ri, 0, k, mode) + grid_hits(g, ri + 1, k, mode)
    }
}

/// The first `max_hits` matches (at least one).
pub open spec fn first_hits(all: Seq<HitView>, max_hits: usize) -> Seq<HitView> {
    if all.len() > max1(max_hits) {
        all.take(max1(max_hits) as int)
    } else {
        all
    }
}

/// Index of the first window row (0-based) and the rows it covers.
pub open spec fn window_rows(g: Seq<Seq<Seq<char>>>, wr: usize, pr: usize) -> Seq<Seq<Seq<char>>> {
    let a = sat_sub(wr, 1) as int;
    if a >= g.len() {
        seq![]
    } else if a + pr >= g.len() {
        g.subrange(a, g.len() as int)
    } else {
        g.subrange(a, a + pr)
    }
}

/// The part of row `r` in columns `start + 1 ..= start + pc`, without its
/// trailing empty cells; nothing where the row ends before the window.
pub open spec fn cut_row(r: Seq<Seq<char>>, start: int, pc: int) -> Seq<Seq<char>> {
    if start >= r.len() {
        seq![]
    } else {
        let end = if start + pc < r.len() {
            start + pc
        } else {
            r.len() as int
        };
        trim_row_spec(r.subrange(start, end))
    }
}

/// The preview of a grid of cell texts (row-major, rows of equal or unequal
/// width): the hits, the window rows cut to the window's columns, and the
/// header row.
pub open spec fn grid_preview_spec(
    g: Seq<Seq<Seq<char>>>,
    keyword: Option<Seq<char>>,
    mode: MatchMode,
    max_hits: usize,
    pr: usize,
    pc: usize,
    start_row: Option<usize>,
    start_col: Option<usize>,
) -> PreviewView {
    let header = if g.len() > 0 {
        trim_row_spec(
            if pc < g[0].len() {
                g[0].take(pc as int)
            } else {
                g[0]
            },
        )
    } else {
        seq![]
    };
    let hits = match keyword {
        Some(k) => first_hits(grid_hits(g, 0, k, mode), max_hits),
        None => seq![],
    };
    let (wr, wc) = window_spec(first_of(hits), start_row, start_col);
    let start = sat_sub(wc, 1) as int;
    let rows = window_rows(g, wr, pr);
    PreviewView {
        hits,
        data: rows.map_values(|r: Seq<Seq<char>>| cut_row(r, start, pc as int)),
        header_row: header,
        start_row: wr,
        start_col: wc,
    }
}

fn grid_hits_of(grid: &Vec<Vec<String>>, keyword: &str, mode: MatchMode, max_hits: usize) -> (r: Vec<Hit>)
    requires
        grid@.len() < i64::MAX,
        forall|i: int| 0 <= i < grid@.len() ==> (#[trigger] grid@[i])@.len() < i64::MAX,
    ensures
        hits_view(r@) == first_hits(grid_hits(grid_view(grid@), 0, keyword@, mode), max_hits),
{
    let ghost g = grid_view(grid@);
    let ghost all = grid_hits(g, 0, keyword@, mode);
    let ghost m = max1(max_hits) as int;
    let mut hits: Vec<Hit> = Vec::new();
    let mut ri: usize = 0;
    while ri < grid.len()
        invariant
            ri <= grid@.len() < i64::MAX,
            forall|i: int| 0 <= i < grid@.len() ==> (#[trigger] grid@[i])@.len() < i64::MAX,
            g == grid_view(grid@),
            all == grid_hits(g, 0, keyword@, mode),
            m == max1(max_hits),
            hits_view(hits@).len() < m,
            all == hits_view(hits@) + grid_hits(g, ri as int, keyword@, mode),
        decreases grid@.len() - ri,
    {
        let row = &grid[ri];
        let mut ci: usize = 0;
        assert(grid_hits(g, ri as int, keyword@, mode) == row_hits(g, ri as int, 0, keyword@, mode) + grid_hits(g, ri + 1, keyword@, mode));
        while ci < row.len()
            invariant
                ri < grid@.len() < i64::MAX,
                row@.len() < i64::MAX,
                row == grid@[ri as int],
                ci <= row@.len(),
                g == grid_view(grid@),
                all == grid_hits(g, 0, keyword@, mode),
                m == max1(max_hits),
                hits_view(hits@).len() < m,
                all == hits_view(hits@) + row_hits(g, ri as int, ci as int, keyword@, mode) + grid_hits(g, ri + 1, keyword@, mode),
            decreases row@.len() - ci,
        {
            let ghost before = hits_view(hits@);
            assert(g[ri as int][ci as int] == row@[ci as int]@);
            if matches_in_mode(row[ci].as_str(), keyword, mode) {
                hits.push(Hit { row: ri as i64 + 1, col: ci as i64 + 1, value: row[ci].clone() });
                assert(hits_view(hits@) =~= before.push(HitView { row: (ri + 1) as i64, col: (ci + 1) as i64, value: g[ri as int][ci as int] }));
                assert(all =~= hits_view(hits@) + row_hits(g, ri as int, ci + 1, keyword@, mode) + grid_hits(g, ri + 1, keyword@, mode));
                if hits.len() >= max_hits {
                    assert(hits_view(hits@).len() == m);
                    assert(all.take(m) =~= hits_view(hits@));
                    proof {
                        if all.len() == m {
                            assert(all =~= hits_view(hits@));
                        }
                    }
                    return hits;
                }
            } else {
                assert(all =~= hits_view(hits@) + row_hits(g, ri as int, ci + 1, keyword@, mode) + grid_hits(g, ri + 1, keyword@, mode));
            }
            ci = ci + 1;
        }
        assert(row_hits(g, ri as int, ci as int, keyword@, mode) =~= Seq::<HitView>::empty());
        assert(all =~= hits_view(hits@) + grid_hits(g, ri + 1, keyword@, mode));
        ri = ri + 1;
    }
    assert(all =~= hits_view(hits@));
    hits
}

} // verus!

verus! {

fn cut(row: &Vec<String>, start: usize, pc: usize) -> (r: Vec<String>)
    ensures
        row_view(r@) == cut_row(row_view(row@), start as int, pc as int),
{
    if start >= row.len() {
        let e: Vec<String> = Vec::new();
        assert(row_view(e@) =~= Seq::<Seq<char>>::empty());
        return e;
    }
    let end = if pc < row.len() - start {
        start + pc
    } else {
        row.len()
    };
    let r = trim_row(&row.as_slice()[start..end]);
    assert(row_view(row@.subrange(start as int, end as int)) =~= row_view(row@).subrange(start as int, end as int));
    r
}

/// The preview of a sheet given as a grid of cell texts: the hits, the
/// window rows cut to the window's columns (a row that ends before the
/// window gives an empty row), and the header row.
pub fn preview_from_grid(
    grid: &Vec<Vec<String>>,
    keyword: Option<&str>,
    mode: MatchMode,
    max_hits: usize,
    preview_rows: usize,
    preview_cols: usize,
    start_row: Option<usize>,
    start_col: Option<usize>,
) -> (r: PreviewResponse)
    requires
        grid@.len() < i64::MAX,
        forall|i: int| 0 <= i < grid@.len() ==> (#[trigger] grid@[i])@.len() < i64::MAX,
    ensures
        preview_view(r) == grid_preview_spec(
            grid_view(grid@),
            opt_view(keyword),
            mode,
            max_hits,
            preview_rows,
            preview_cols,
            start_row,
            start_col,
        ),
{
    let ghost g = grid_view(grid@);
    let header_row: Vec<String> = if grid.len() > 0 {
        let first = &grid[0];
        let n = if preview_cols < first.len() {
            preview_cols
        } else {
            first.len()
        };
        let h = trim_row(&first.as_slice()[0..n]);
        assert(row_view(first@.subrange(0, n as int)) =~= (if preview_cols < first@.len() {
            g[0].take(preview_cols as int)
        } else {
            g[0]
        }));
        h
    } else {
        Vec::new()
    };
    let hits: Vec<Hit> = match keyword {
        Some(k) => grid_hits_of(grid, k, mode, max_hits),
        None => Vec::new(),
    };
    assert(keyword is None ==> hits_view(hits@) =~= Seq::<HitView>::empty());
    let first = if hits.len() > 0 {
        Some(&hits[0])
    } else {
        None
    };
    let (window_row, window_col) = preview_window(first, start_row, start_col);
    let start = if window_col >= 1 {
        window_col - 1
    } else {
        0
    };
    let a = if window_row >= 1 {
        window_row - 1
    } else {
        0
    };
    let ghost rows = window_rows(g, window_row, preview_rows);
    let ghost hv = match opt_view(keyword) {
        Some(k) => first_hits(grid_hits(g, 0, k, mode), max_hits),
        None => seq![],
    };
    let ghost hdr = if g.len() > 0 {
        trim_row_spec(
            if preview_cols < g[0].len() {
                g[0].take(preview_cols as int)
            } else {
                g[0]
            },
        )
    } else {
        seq![]
    };
    assert(hits_view(hits@) == hv);
    assert(first_of(hv) == match first {
        Some(h) => Some(hit_view(*h)),
        None => None,
    });
    let mut data: Vec<Vec<String>> = Vec::new();
    let mut i = a;
    let mut taken: usize = 0;
    while i < grid.len() && taken < preview_rows
        invariant
            g == grid_view(grid@),
            rows == window_rows(g, window_row, preview_rows),
            hits_view(hits@) == hv,
            hv == (match opt_view(keyword) {
                Some(k) => first_hits(grid_hits(g, 0, k, mode), max_hits),
                None => seq![],
            }),
            row_view(header_row@) == hdr,
            hdr == (if g.len() > 0 {
                trim_row_spec(
                    if preview_cols < g[0].len() {
                        g[0].take(preview_cols as int)
                    } else {
                        g[0]
                    },
                )
            } else {
                seq![]
            }),
            (window_row, window_col) == window_spec(first_of(hv), start_row, start_col),
            start == sat_sub(window_col, 1),
            a == sat_sub(window_row, 1),
            a <= i,
            taken == i - a,
            taken <= preview_rows,
            a < grid@.len() ==> i <= grid@.len(),
            a >= grid@.len() ==> i == a,
            grid_view(data@) == rows.take(taken as int).map_values(|r: Seq<Seq<char>>| cut_row(r, start as int, preview_cols as int)),
        decreases grid@.len() - i,
    {
        assert(rows[taken as int] == g[i as int]);
        let c = cut(&grid[i], start, preview_cols);
        let ghost before = grid_view(data@);
        data.push(c);
        assert(grid_view(data@) =~= before.push(row_view(c@)));
        assert(rows.take(taken + 1) =~= rows.take(taken as int).push(rows[taken as int]));
        i = i + 1;
        taken = taken + 1;
    }
    assert(taken == rows.len());
    assert(rows.take(taken as int) =~= rows);
    PreviewResponse { hits, data, header_row, start_row: window_row, start_col: window_col }
}

} // verus!

verus! {

/// At most this many hits are collected for a preview.
pub const PREVIEW_MAX_HITS: usize = 200;

/// Rows in a preview window.
pub const PREVIEW_ROWS: usize = 20;

/// Columns in a preview window.
pub const PREVIEW_COLS: usize = 50;

} // verus!
