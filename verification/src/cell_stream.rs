//! The cells of a worksheet's XML as a plain sequence, independent of any
//! sink: a scan of the XML is the same as handing these cells to the sink
//! one by one.
use vstd::prelude::*;
use crate::bytes::{find_seq, lemma_find_seq, lemma_next_byte, next_byte};
use crate::sheet_scan::{
    cells_from, close_c_from, key_r, lemma_close_c_from, lemma_scan_to, row_close_tag, row_number, row_open, rows_from,
    scan_spec, scan_to, Flow, SinkModel,
};
use crate::sheet_xml::{attr_spec, cell_value_spec, col_ref_spec, is_alpha, kind_spec, ColRef};
use crate::matching::{cell_matches_spec, MatchMode};
use crate::preview::{
    empties, first_hits, grid_hits, header_cell, max1, pad_row, pad_rows, row_hits, trim_row_spec, window_cell, HitModel,
    WindowModel,
};
use crate::types::HitView;

verus! {

/// The non-empty cells `(column, text)` of a row from position `i` (before
/// `rc`, the row's `</row`), in document order, and whether the row ends on
/// a column number that does not fit in `usize`.
pub open spec fn row_stream(x: Seq<u8>, sst: Seq<Seq<char>>, i: int, rc: int, cc: int) -> (
    Seq<(usize, Seq<char>)>,
    bool,
)
    decreases rc + 2 - i,
{
    let i1 = scan_to(x, i, rc, 0x3c);
    proof {
        lemma_scan_to(x, i, rc, 0x3c);
    }
    if i1 >= rc || i1 + 1 >= rc || rc > x.len() || i < 0 {
        (seq![], false)
    } else if x[i1 + 1] == 0x2f || x[i1 + 1] != 0x63 {
        let m = scan_to(x, i1, rc, 0x3e);
        proof {
            lemma_scan_to(x, i1, rc, 0x3e);
        }
        row_stream(x, sst, m + 1, rc, cc)
    } else {
        let j = scan_to(x, i1 + 2, rc, 0x3e);
        proof {
            lemma_scan_to(x, i1 + 2, rc, 0x3e);
        }
        if j >= rc {
            (seq![], false)
        } else {
            let tag = x.subrange(i1 + 2, j);
            let cr = match attr_spec(tag, key_r()) {
                Some(r) => col_ref_spec(tag.subrange(r.0, r.1)),
                None => ColRef::NoLetters,
            };
            if cr is Overflow {
                (seq![], true)
            } else {
                let col: usize = match cr {
                    ColRef::Col(c) => c,
                    _ => (cc + 1) as usize,
                };
                let cc2 = match cr {
                    ColRef::Col(_) => cc,
                    _ => cc + 1,
                };
                if x[j - 1] == 0x2f {
                    row_stream(x, sst, j + 1, rc, cc2)
                } else {
                    let k = close_c_from(x, j + 1, rc);
                    let cell_close = if k + 3 <= rc {
                        k
                    } else {
                        rc
                    };
                    let v = cell_value_spec(x.subrange(j + 1, cell_close), kind_spec(tag), sst);
                    let m = scan_to(x, cell_close, rc, 0x3e);
                    proof {
                        lemma_close_c_from(x, j + 1, rc);
                        lemma_scan_to(x, cell_close, rc, 0x3e);
                    }
                    let rest = row_stream(x, sst, m + 1, rc, cc2);
                    (if v.len() > 0 {
                        seq![(col, v)] + rest.0
                    } else {
                        rest.0
                    }, rest.1)
                }
            }
        }
    }
}

/// Hands the cells of row `row` to a sink, the wanted ones only, until it
/// asks to stop; a row cut short by a column number that does not fit ends
/// in a fault.
pub open spec fn feed_row<S: SinkModel>(row: usize, cells: Seq<(usize, Seq<char>)>, fault: bool, sink: S) -> (S, Flow)
    decreases cells.len(),
{
    if cells.len() == 0 {
        (sink, if fault {
            Flow::Fault
        } else {
            Flow::Done
        })
    } else if sink.wants(row, cells[0].0) {
        let n = sink.next(row, cells[0].0, cells[0].1);
        if !n.1 {
            (n.0, Flow::Stopped)
        } else {
            feed_row(row, cells.drop_first(), fault, n.0)
        }
    } else {
        feed_row(row, cells.drop_first(), fault, sink)
    }
}

/// Scanning the cells of a row is handing its cell stream to the sink.
pub proof fn lemma_cells_feed<S: SinkModel>(
    x: Seq<u8>,
    sst: Seq<Seq<char>>,
    i: int,
    rc: int,
    row: usize,
    cc: int,
    sink: S,
)
    ensures
        cells_from(x, sst, i, rc, row, cc, sink) == feed_row(
            row,
            row_stream(x, sst, i, rc, cc).0,
            row_stream(x, sst, i, rc, cc).1,
            sink,
        ),
    decreases rc + 2 - i,
{
    let i1 = scan_to(x, i, rc, 0x3c);
    lemma_scan_to(x, i, rc, 0x3c);
    if i1 >= rc || i1 + 1 >= rc || rc > x.len() || i < 0 {
    } else if x[i1 + 1] == 0x2f || x[i1 + 1] != 0x63 {
        let m = scan_to(x, i1, rc, 0x3e);
        lemma_scan_to(x, i1, rc, 0x3e);
        lemma_cells_feed(x, sst, m + 1, rc, row, cc, sink);
    } else {
        let j = scan_to(x, i1 + 2, rc, 0x3e);
        lemma_scan_to(x, i1 + 2, rc, 0x3e);
        if j < rc {
            let tag = x.subrange(i1 + 2, j);
            let cr = match attr_spec(tag, key_r()) {
                Some(r) => col_ref_spec(tag.subrange(r.0, r.1)),
                None => ColRef::NoLetters,
            };
            if !(cr is Overflow) {
                let col: usize = match cr {
                    ColRef::Col(c) => c,
                    _ => (cc + 1) as usize,
                };
                let cc2 = match cr {
                    ColRef::Col(_) => cc,
                    _ => cc + 1,
                };
                if x[j - 1] == 0x2f {
                    lemma_cells_feed(x, sst, j + 1, rc, row, cc2, sink);
                } else {
                    let k = close_c_from(x, j + 1, rc);
                    let cell_close = if k + 3 <= rc {
                        k
                    } else {
                        rc
                    };
                    let v = cell_value_spec(x.subrange(j + 1, cell_close), kind_spec(tag), sst);
                    let m = scan_to(x, cell_close, rc, 0x3e);
                    lemma_close_c_from(x, j + 1, rc);
                    lemma_scan_to(x, cell_close, rc, 0x3e);
                    let rest = row_stream(x, sst, m + 1, rc, cc2);
                    let included = sink.wants(row, col);
                    let s2 = if included && v.len() > 0 {
                        sink.next(row, col, v).0
                    } else {
                        sink
                    };
                    lemma_cells_feed(x, sst, m + 1, rc, row, cc2, s2);
                    if v.len() > 0 {
                        let cs = seq![(col, v)] + rest.0;
                        assert(cs[0] == (col, v));
                        assert(cs.drop_first() =~= rest.0);
                    }
                }
            }
        }
    }
}


/// The rows of a worksheet's XML from position `pos` (`row` being the
/// previous row's number), each with its number and its non-empty cells, in
/// document order; and whether the rows end on a row or column number that
/// does not fit in `usize`.
pub open spec fn rows_stream(x: Seq<u8>, sst: Seq<Seq<char>>, pos: int, row: usize) -> (
    Seq<(usize, Seq<(usize, Seq<char>)>)>,
    bool,
)
    decreases x.len() + 8 - pos,
{
    match find_seq(x, pos, row_open()) {
        None => (seq![], false),
        Some(rs) => {
            proof {
                lemma_find_seq(x, pos, row_open());
            }
            let next = if rs + 4 < x.len() {
                x[rs + 4]
            } else {
                0x3e
            };
            if is_alpha(next) {
                rows_stream(x, sst, rs + 4, row)
            } else {
                match next_byte(x, rs, 0x3e) {
                    None => (seq![], false),
                    Some(re) => {
                        proof {
                            lemma_next_byte(x, rs, 0x3e);
                        }
                        if re <= rs {
                            (seq![], false)
                        } else {
                            match row_number(x.subrange(rs + 1, re), row) {
                                None => (seq![], true),
                                Some(r) => if x[re - 1] == 0x2f {
                                    let rest = rows_stream(x, sst, re + 1, r);
                                    (seq![(r, Seq::<(usize, Seq<char>)>::empty())] + rest.0, rest.1)
                                } else {
                                    match find_seq(x, re + 1, row_close_tag()) {
                                        None => (seq![], false),
                                        Some(rc) => {
                                            proof {
                                                lemma_find_seq(x, re + 1, row_close_tag());
                                            }
                                            let cells = row_stream(x, sst, re + 1, rc, 0);
                                            if cells.1 {
                                                (seq![(r, cells.0)], true)
                                            } else {
                                                let rest = rows_stream(x, sst, rc, r);
                                                (seq![(r, cells.0)] + rest.0, rest.1)
                                            }
                                        },
                                    }
                                },
                            }
                        }
                    },
                }
            }
        },
    }
}

/// The rows of a whole worksheet.
pub open spec fn sheet_rows(x: Seq<u8>, sst: Seq<Seq<char>>) -> Seq<(usize, Seq<(usize, Seq<char>)>)> {
    rows_stream(x, sst, 0, 0).0
}

/// Whether the rows of a worksheet end on a number that does not fit.
pub open spec fn sheet_faults(x: Seq<u8>, sst: Seq<Seq<char>>) -> bool {
    rows_stream(x, sst, 0, 0).1
}

/// Hands rows to a sink until a row numbered above `max_row`, or until the
/// sink asks to stop.
pub open spec fn feed_rows<S: SinkModel>(
    rows: Seq<(usize, Seq<(usize, Seq<char>)>)>,
    fault: bool,
    max_row: usize,
    sink: S,
) -> (S, Flow)
    decreases rows.len(),
{
    if rows.len() == 0 {
        (sink, if fault {
            Flow::Fault
        } else {
            Flow::Done
        })
    } else if rows[0].0 > max_row {
        (sink, Flow::Done)
    } else {
        let f = feed_row(rows[0].0, rows[0].1, false, sink);
        if f.1 == Flow::Done {
            feed_rows(rows.drop_first(), fault, max_row, f.0)
        } else {
            f
        }
    }
}

/// A row that ends in a fault feeds like one that does not, but ends in the
/// fault.
pub proof fn lemma_feed_row_fault<S: SinkModel>(row: usize, cells: Seq<(usize, Seq<char>)>, sink: S)
    ensures
        feed_row(row, cells, true, sink).0 == feed_row(row, cells, false, sink).0,
        feed_row(row, cells, false, sink).1 == Flow::Done ==> feed_row(row, cells, true, sink).1 == Flow::Fault,
        feed_row(row, cells, false, sink).1 != Flow::Done ==> feed_row(row, cells, true, sink).1 == feed_row(
            row,
            cells,
            false,
            sink,
        ).1,
        feed_row(row, cells, false, sink).1 != Flow::Fault,
    decreases cells.len(),
{
    if cells.len() > 0 {
        if sink.wants(row, cells[0].0) {
            let n = sink.next(row, cells[0].0, cells[0].1);
            if n.1 {
                lemma_feed_row_fault(row, cells.drop_first(), n.0);
            }
        } else {
            lemma_feed_row_fault(row, cells.drop_first(), sink);
        }
    }
}

/// Scanning rows is handing their stream to the sink.
pub proof fn lemma_rows_feed<S: SinkModel>(
    x: Seq<u8>,
    sst: Seq<Seq<char>>,
    max_row: usize,
    pos: int,
    row: usize,
    sink: S,
)
    ensures
        rows_from(x, sst, max_row, pos, row, sink) == feed_rows(
            rows_stream(x, sst, pos, row).0,
            rows_stream(x, sst, pos, row).1,
            max_row,
            sink,
        ),
    decreases x.len() + 8 - pos,
{
    match find_seq(x, pos, row_open()) {
        None => {},
        Some(rs) => {
            lemma_find_seq(x, pos, row_open());
            let next = if rs + 4 < x.len() {
                x[rs + 4]
            } else {
                0x3e
            };
            if is_alpha(next) {
                lemma_rows_feed(x, sst, max_row, rs + 4, row, sink);
            } else {
                match next_byte(x, rs, 0x3e) {
                    None => {},
                    Some(re) => {
                        lemma_next_byte(x, rs, 0x3e);
                        if re > rs {
                            match row_number(x.subrange(rs + 1, re), row) {
                                None => {},
                                Some(r) => if x[re - 1] == 0x2f {
                                    let rest = rows_stream(x, sst, re + 1, r);
                                    let rows = seq![(r, Seq::<(usize, Seq<char>)>::empty())] + rest.0;
                                    assert(rows[0] == (r, Seq::<(usize, Seq<char>)>::empty()));
                                    assert(rows.drop_first() =~= rest.0);
                                    lemma_rows_feed(x, sst, max_row, re + 1, r, sink);
                                    assert(feed_row(r, Seq::<(usize, Seq<char>)>::empty(), false, sink) == (sink, Flow::Done));
                                } else {
                                    match find_seq(x, re + 1, row_close_tag()) {
                                        None => {},
                                        Some(rc) => {
                                            lemma_find_seq(x, re + 1, row_close_tag());
                                            let cells = row_stream(x, sst, re + 1, rc, 0);
                                            lemma_cells_feed(x, sst, re + 1, rc, r, 0, sink);
                                            lemma_feed_row_fault(r, cells.0, sink);
                                            let f = feed_row(r, cells.0, false, sink);
                                            if cells.1 {
                                                let rows = seq![(r, cells.0)];
                                                assert(rows[0] == (r, cells.0));
                                                assert(rows.drop_first() =~= Seq::<(usize, Seq<(usize, Seq<char>)>)>::empty());
                                                assert(rows_stream(x, sst, pos, row) == (rows, true));
                                                assert(feed_rows(rows.drop_first(), true, max_row, f.0) == (f.0, Flow::Fault));
                                            } else {
                                                let rest = rows_stream(x, sst, rc, r);
                                                let rows = seq![(r, cells.0)] + rest.0;
                                                assert(rows[0] == (r, cells.0));
                                                assert(rows.drop_first() =~= rest.0);
                                                lemma_rows_feed(x, sst, max_row, rc, r, f.0);
                                                assert(rows_stream(x, sst, pos, row) == (rows, rest.1));
                                            }
                                        },
                                    }
                                },
                            }
                        }
                    },
                }
            }
        },
    }
}

/// A whole scan is handing the worksheet's rows to the sink.
pub proof fn lemma_scan_feed<S: SinkModel>(x: Seq<u8>, sst: Seq<Seq<char>>, max_row: usize, sink: S)
    ensures
        scan_spec(x, sst, max_row, sink) == feed_rows(sheet_rows(x, sst), sheet_faults(x, sst), max_row, sink),
{
    lemma_rows_feed(x, sst, max_row, 0, 0, sink);
}


/// The cells of row `r` as (row, column, text).
pub open spec fn row_cells(r: usize, cells: Seq<(usize, Seq<char>)>) -> Seq<(int, int, Seq<char>)> {
    cells.map_values(|c: (usize, Seq<char>)| (r as int, c.0 as int, c.1))
}

/// The non-empty cells of rows as (row, column, text), row by row.
pub open spec fn flat_cells(rows: Seq<(usize, Seq<(usize, Seq<char>)>)>) -> Seq<(int, int, Seq<char>)>
    decreases rows.len(),
{
    if rows.len() == 0 {
        seq![]
    } else {
        row_cells(rows[0].0, rows[0].1) + flat_cells(rows.drop_first())
    }
}

/// The non-empty cells of grid row `ri` from column index `ci` on, as
/// (row, column, text), both numbers 1-based.
pub open spec fn grid_row_cells(g: Seq<Seq<Seq<char>>>, ri: int, ci: int) -> Seq<(int, int, Seq<char>)>
    decreases g[ri].len() - ci,
{
    if ci < 0 || ci >= g[ri].len() {
        seq![]
    } else {
        let rest = grid_row_cells(g, ri, ci + 1);
        if g[ri][ci].len() > 0 {
            seq![(ri + 1, ci + 1, g[ri][ci])] + rest
        } else {
            rest
        }
    }
}

/// The non-empty cells of a grid from row index `ri` on, row by row, left
/// to right.
pub open spec fn grid_cells(g: Seq<Seq<Seq<char>>>, ri: int) -> Seq<(int, int, Seq<char>)>
    decreases g.len() - ri,
{
    if ri < 0 || ri >= g.len() {
        seq![]
    } else {
        grid_row_cells(g, ri, 0) + grid_cells(g, ri + 1)
    }
}

/// The hits among cells, in order.
pub open spec fn cell_hits(cells: Seq<(int, int, Seq<char>)>, k: Seq<char>, mode: MatchMode) -> Seq<HitView>
    decreases cells.len(),
{
    if cells.len() == 0 {
        seq![]
    } else {
        let rest = cell_hits(cells.drop_first(), k, mode);
        if cell_matches_spec(cells[0].2, k, mode) {
            seq![HitView { row: cells[0].0 as i64, col: cells[0].1 as i64, value: cells[0].2 }] + rest
        } else {
            rest
        }
    }
}

/// An empty text matches no keyword.
pub proof fn lemma_empty_matches_nothing(k: Seq<char>, mode: MatchMode)
    ensures
        !cell_matches_spec(Seq::<char>::empty(), k, mode),
{
    if k.len() > 0 {
        let kb = vstd::utf8::encode_utf8(k);
        assert(kb =~= vstd::utf8::encode_scalar(k[0] as u32) + vstd::utf8::encode_utf8(k.drop_first()));
        assert(vstd::utf8::encode_scalar(k[0] as u32).len() > 0);
        assert(vstd::utf8::encode_utf8(Seq::<char>::empty()) =~= Seq::<u8>::empty());
    }
}

pub proof fn lemma_cell_hits_append(a: Seq<(int, int, Seq<char>)>, b: Seq<(int, int, Seq<char>)>, k: Seq<char>, mode: MatchMode)
    ensures
        cell_hits(a + b, k, mode) == cell_hits(a, k, mode) + cell_hits(b, k, mode),
    decreases a.len(),
{
    if a.len() == 0 {
        assert(a + b =~= b);
    } else {
        assert((a + b).drop_first() =~= a.drop_first() + b);
        assert((a + b)[0] == a[0]);
        lemma_cell_hits_append(a.drop_first(), b, k, mode);
    }
}

/// The matches of a grid row are the hits among its non-empty cells.
pub proof fn lemma_row_hits_cells(g: Seq<Seq<Seq<char>>>, ri: int, ci: int, k: Seq<char>, mode: MatchMode)
    requires
        0 <= ri < g.len(),
    ensures
        row_hits(g, ri, ci, k, mode) == cell_hits(grid_row_cells(g, ri, ci), k, mode),
    decreases g[ri].len() - ci,
{
    if 0 <= ci < g[ri].len() {
        lemma_row_hits_cells(g, ri, ci + 1, k, mode);
        let rest = grid_row_cells(g, ri, ci + 1);
        if g[ri][ci].len() > 0 {
            let cs = seq![(ri + 1, ci + 1, g[ri][ci])] + rest;
            assert(cs[0] == (ri + 1, ci + 1, g[ri][ci]));
            assert(cs.drop_first() =~= rest);
        } else {
            assert(g[ri][ci] =~= Seq::<char>::empty());
            lemma_empty_matches_nothing(k, mode);
        }
    }
}

/// The matches of a grid are the hits among its non-empty cells.
pub proof fn lemma_grid_hits_cells(g: Seq<Seq<Seq<char>>>, ri: int, k: Seq<char>, mode: MatchMode)
    ensures
        grid_hits(g, ri, k, mode) == cell_hits(grid_cells(g, ri), k, mode),
    decreases g.len() - ri,
{
    if 0 <= ri < g.len() {
        lemma_grid_hits_cells(g, ri + 1, k, mode);
        lemma_row_hits_cells(g, ri, 0, k, mode);
        lemma_cell_hits_append(grid_row_cells(g, ri, 0), grid_cells(g, ri + 1), k, mode);
    }
}

/// The hit collector after more hits: the first ones up to its limit, and
/// whether it stopped.
pub open spec fn hits_after(hm: HitModel, extra: Seq<HitView>) -> (HitModel, Flow) {
    let all = hm.hits + extra;
    if all.len() >= max1(hm.max_hits) {
        (HitModel { hits: all.take(max1(hm.max_hits) as int), ..hm }, Flow::Stopped)
    } else {
        (HitModel { hits: all, ..hm }, Flow::Done)
    }
}

pub proof fn lemma_feed_row_hits(r: usize, cells: Seq<(usize, Seq<char>)>, hm: HitModel)
    requires
        hm.hits.len() < max1(hm.max_hits),
    ensures
        feed_row(r, cells, false, hm) == hits_after(hm, cell_hits(row_cells(r, cells), hm.keyword, hm.mode)),
    decreases cells.len(),
{
    let rc = row_cells(r, cells);
    if cells.len() == 0 {
        assert(hm.hits + Seq::<HitView>::empty() =~= hm.hits);
    } else {
        assert(rc[0] == (r as int, cells[0].0 as int, cells[0].1));
        assert(rc.drop_first() =~= row_cells(r, cells.drop_first()));
        let rest = cell_hits(row_cells(r, cells.drop_first()), hm.keyword, hm.mode);
        let n = hm.next(r, cells[0].0, cells[0].1);
        if cell_matches_spec(cells[0].1, hm.keyword, hm.mode) {
            let hv = HitView { row: r as i64, col: cells[0].0 as i64, value: cells[0].1 };
            assert(cell_hits(rc, hm.keyword, hm.mode) == seq![hv] + rest);
            assert(hm.hits + (seq![hv] + rest) =~= hm.hits.push(hv) + rest);
            if n.1 {
                lemma_feed_row_hits(r, cells.drop_first(), n.0);
            } else {
                assert((hm.hits.push(hv) + rest).take(max1(hm.max_hits) as int) =~= hm.hits.push(hv));
            }
        } else {
            lemma_feed_row_hits(r, cells.drop_first(), hm);
        }
    }
}

pub proof fn lemma_feed_rows_hits(rows: Seq<(usize, Seq<(usize, Seq<char>)>)>, hm: HitModel)
    requires
        hm.hits.len() < max1(hm.max_hits),
    ensures
        feed_rows(rows, false, usize::MAX, hm) == hits_after(hm, cell_hits(flat_cells(rows), hm.keyword, hm.mode)),
    decreases rows.len(),
{
    if rows.len() == 0 {
        assert(hm.hits + Seq::<HitView>::empty() =~= hm.hits);
    } else {
        let e0 = cell_hits(row_cells(rows[0].0, rows[0].1), hm.keyword, hm.mode);
        let er = cell_hits(flat_cells(rows.drop_first()), hm.keyword, hm.mode);
        lemma_cell_hits_append(row_cells(rows[0].0, rows[0].1), flat_cells(rows.drop_first()), hm.keyword, hm.mode);
        lemma_feed_row_hits(rows[0].0, rows[0].1, hm);
        let f = feed_row(rows[0].0, rows[0].1, false, hm);
        assert(hm.hits + (e0 + er) =~= (hm.hits + e0) + er);
        if f.1 == Flow::Done {
            lemma_feed_rows_hits(rows.drop_first(), f.0);
        } else {
            let m = max1(hm.max_hits) as int;
            assert(((hm.hits + e0) + er).take(m) =~= (hm.hits + e0).take(m));
        }
    }
}

/// Rows that end in a fault feed like rows that do not, but where the
/// feeding reaches their end it ends in the fault.
pub proof fn lemma_feed_rows_fault<S: SinkModel>(rows: Seq<(usize, Seq<(usize, Seq<char>)>)>, max_row: usize, sink: S)
    ensures
        feed_rows(rows, true, max_row, sink).0 == feed_rows(rows, false, max_row, sink).0,
        feed_rows(rows, true, max_row, sink).1 == Flow::Fault || feed_rows(rows, true, max_row, sink).1 == feed_rows(
            rows,
            false,
            max_row,
            sink,
        ).1,
    decreases rows.len(),
{
    if rows.len() > 0 && rows[0].0 <= max_row {
        let f = feed_row(rows[0].0, rows[0].1, false, sink);
        if f.1 == Flow::Done {
            lemma_feed_rows_fault(rows.drop_first(), max_row, f.0);
        }
    }
}

/// A scan of worksheet XML gives the state that feeding its rows gives, as
/// though no number overflowed, unless it ends in a fault.
pub proof fn lemma_scan_feed_sound<S: SinkModel>(x: Seq<u8>, sst: Seq<Seq<char>>, max_row: usize, sink: S)
    ensures
        scan_spec(x, sst, max_row, sink).0 == feed_rows(sheet_rows(x, sst), false, max_row, sink).0,
        scan_spec(x, sst, max_row, sink).1 == Flow::Fault || scan_spec(x, sst, max_row, sink).1 == feed_rows(
            sheet_rows(x, sst),
            false,
            max_row,
            sink,
        ).1,
{
    lemma_scan_feed(x, sst, max_row, sink);
    lemma_feed_rows_fault(sheet_rows(x, sst), max_row, sink);
}

/// The hits a scan of worksheet XML collects, where it does not end in a
/// fault, are the first hits among the cells of its rows.
pub proof fn lemma_scan_hits(x: Seq<u8>, sst: Seq<Seq<char>>, hm: HitModel)
    requires
        hm.hits.len() == 0,
    ensures
        scan_spec(x, sst, usize::MAX, hm).1 != Flow::Fault ==> scan_spec(x, sst, usize::MAX, hm).0 == (HitModel {
            hits: first_hits(cell_hits(flat_cells(sheet_rows(x, sst)), hm.keyword, hm.mode), hm.max_hits),
            ..hm
        }),
{
    lemma_scan_feed_sound(x, sst, usize::MAX, hm);
    lemma_feed_rows_hits(sheet_rows(x, sst), hm);
    let e = cell_hits(flat_cells(sheet_rows(x, sst)), hm.keyword, hm.mode);
    assert(hm.hits + e =~= e);
    assert(e.len() == max1(hm.max_hits) ==> e.take(e.len() as int) =~= e);
}

/// Whether the listed cells hold one at (`r`, `c`).
pub open spec fn has_cell(s: Seq<(int, int, Seq<char>)>, r: int, c: int) -> bool {
    exists|j: int| 0 <= j < s.len() && (#[trigger] s[j]).0 == r && s[j].1 == c
}

/// The text of the last listed cell at (`r`, `c`), empty when none is.
pub open spec fn lookup(s: Seq<(int, int, Seq<char>)>, r: int, c: int) -> Seq<char>
    decreases s.len(),
{
    if s.len() == 0 {
        seq![]
    } else if s.last().0 == r && s.last().1 == c {
        s.last().2
    } else {
        lookup(s.drop_last(), r, c)
    }
}

pub proof fn lemma_lookup_absent(s: Seq<(int, int, Seq<char>)>, r: int, c: int)
    requires
        !has_cell(s, r, c),
    ensures
        lookup(s, r, c) == Seq::<char>::empty(),
    decreases s.len(),
{
    if s.len() > 0 {
        assert(s.drop_last().len() < s.len());
        assert(!has_cell(s.drop_last(), r, c)) by {
            if has_cell(s.drop_last(), r, c) {
                let j = choose|j: int| 0 <= j < s.drop_last().len() && (#[trigger] s.drop_last()[j]).0 == r && s.drop_last()[j].1 == c;
                assert(s[j] == s.drop_last()[j]);
            }
        }
        assert(s[s.len() - 1] == s.last());
        lemma_lookup_absent(s.drop_last(), r, c);
    }
}

/// Cells listed after others, none of them in row `r`, leave the lookups in
/// row `r` as they were.
pub proof fn lemma_lookup_other_rows(a: Seq<(int, int, Seq<char>)>, b: Seq<(int, int, Seq<char>)>, r: int, c: int)
    requires
        forall|j: int| 0 <= j < b.len() ==> (#[trigger] b[j]).0 != r,
    ensures
        lookup(a + b, r, c) == lookup(a, r, c),
    decreases b.len(),
{
    if b.len() == 0 {
        assert(a + b =~= a);
    } else {
        assert((a + b).drop_last() =~= a + b.drop_last());
        assert((a + b).last() == b[b.len() - 1]);
        lemma_lookup_other_rows(a, b.drop_last(), r, c);
    }
}

/// A cell listed first is found when no later cell is at its place.
pub proof fn lemma_lookup_first(e: (int, int, Seq<char>), b: Seq<(int, int, Seq<char>)>)
    requires
        !has_cell(b, e.0, e.1),
    ensures
        lookup(seq![e] + b, e.0, e.1) == e.2,
    decreases b.len(),
{
    if b.len() == 0 {
        assert(seq![e] + b =~= seq![e]);
    } else {
        assert((seq![e] + b).drop_last() =~= seq![e] + b.drop_last());
        assert((seq![e] + b).last() == b[b.len() - 1]);
        assert(!has_cell(b.drop_last(), e.0, e.1)) by {
            if has_cell(b.drop_last(), e.0, e.1) {
                let j = choose|j: int| 0 <= j < b.drop_last().len() && (#[trigger] b.drop_last()[j]).0 == e.0 && b.drop_last()[j].1 == e.1;
                assert(b[j] == b.drop_last()[j]);
            }
        }
        lemma_lookup_first(e, b.drop_last());
    }
}

/// A cell listed first at another place does not change a lookup.
pub proof fn lemma_lookup_skip_first(e: (int, int, Seq<char>), b: Seq<(int, int, Seq<char>)>, r: int, c: int)
    requires
        !(e.0 == r && e.1 == c),
    ensures
        lookup(seq![e] + b, r, c) == lookup(b, r, c),
    decreases b.len(),
{
    if b.len() == 0 {
        assert(seq![e] + b =~= seq![e]);
        assert(seq![e].drop_last() =~= Seq::<(int, int, Seq<char>)>::empty());
        assert(b =~= Seq::<(int, int, Seq<char>)>::empty());
        assert(seq![e].last() == e);
        assert(lookup(seq![e], r, c) == lookup(seq![e].drop_last(), r, c));
    } else {
        assert((seq![e] + b).drop_last() =~= seq![e] + b.drop_last());
        assert((seq![e] + b).last() == b.last());
        lemma_lookup_skip_first(e, b.drop_last(), r, c);
    }
}

/// The cells of grid row `ri` from index `ci` are in row `ri + 1`, at
/// columns after `ci`.
pub proof fn lemma_grid_row_cells_place(g: Seq<Seq<Seq<char>>>, ri: int, ci: int)
    requires
        0 <= ri < g.len(),
        0 <= ci,
    ensures
        forall|j: int| 0 <= j < grid_row_cells(g, ri, ci).len() ==> (#[trigger] grid_row_cells(g, ri, ci)[j]).0 == ri + 1
            && grid_row_cells(g, ri, ci)[j].1 > ci,
    decreases g[ri].len() - ci,
{
    if ci < g[ri].len() {
        lemma_grid_row_cells_place(g, ri, ci + 1);
        let rest = grid_row_cells(g, ri, ci + 1);
        if g[ri][ci].len() > 0 {
            let cs = seq![(ri + 1, ci + 1, g[ri][ci])] + rest;
            assert forall|j: int| 0 <= j < cs.len() implies (#[trigger] cs[j]).0 == ri + 1 && cs[j].1 > ci by {
                if j > 0 {
                    assert(cs[j] == rest[j - 1]);
                }
            }
        }
    }
}

/// The cells of a grid from row index `ri` are in rows after `ri`.
pub proof fn lemma_grid_cells_rows(g: Seq<Seq<Seq<char>>>, ri: int)
    requires
        0 <= ri,
    ensures
        forall|j: int| 0 <= j < grid_cells(g, ri).len() ==> (#[trigger] grid_cells(g, ri)[j]).0 > ri,
    decreases g.len() - ri,
{
    if ri < g.len() {
        lemma_grid_cells_rows(g, ri + 1);
        lemma_grid_row_cells_place(g, ri, 0);
        let a = grid_row_cells(g, ri, 0);
        let b = grid_cells(g, ri + 1);
        assert forall|j: int| 0 <= j < (a + b).len() implies (#[trigger] (a + b)[j]).0 > ri by {
            if j < a.len() {
                assert((a + b)[j] == a[j]);
            } else {
                assert((a + b)[j] == b[j - a.len()]);
            }
        }
    }
}

/// The text at column `c` of grid row `ri`, among the row's cells from index
/// `ci` on.
pub proof fn lemma_lookup_grid_row(g: Seq<Seq<Seq<char>>>, ri: int, ci: int, c: int)
    requires
        0 <= ri < g.len(),
        0 <= ci < c,
    ensures
        lookup(grid_row_cells(g, ri, ci), ri + 1, c) == (if c <= g[ri].len() {
            g[ri][c - 1]
        } else {
            Seq::<char>::empty()
        }),
    decreases g[ri].len() - ci,
{
    lemma_grid_row_cells_place(g, ri, ci);
    if ci >= g[ri].len() {
        assert(grid_row_cells(g, ri, ci) =~= Seq::<(int, int, Seq<char>)>::empty());
    } else {
        let rest = grid_row_cells(g, ri, ci + 1);
        lemma_grid_row_cells_place(g, ri, ci + 1);
        if ci + 1 == c {
            assert(!has_cell(rest, ri + 1, c));
            if g[ri][ci].len() > 0 {
                lemma_lookup_first((ri + 1, ci + 1, g[ri][ci]), rest);
            } else {
                lemma_lookup_absent(rest, ri + 1, c);
                assert(g[ri][ci] =~= Seq::<char>::empty());
            }
        } else {
            lemma_lookup_grid_row(g, ri, ci + 1, c);
            if g[ri][ci].len() > 0 {
                lemma_lookup_skip_first((ri + 1, ci + 1, g[ri][ci]), rest, ri + 1, c);
            }
        }
    }
}

/// What the window collector's header holds after the cells `s`: nothing
/// yet, or `pc` cells, each the text of the row-1 cell at its column.
pub open spec fn header_ok(m: WindowModel, s: Seq<(int, int, Seq<char>)>) -> bool {
    &&& (m.header.len() == 0 || m.header.len() == m.pc)
    &&& forall|i: int| 0 <= i < m.header.len() ==> #[trigger] m.header[i] == lookup(s, 1, i + 1)
    &&& (m.header.len() == 0 ==> forall|c: int| 1 <= c <= m.pc ==> !#[trigger] has_cell(s, 1, c))
}

/// Whether a listed cell falls in the window of the collector `m`.
pub open spec fn in_window(m: WindowModel, e: (int, int, Seq<char>)) -> bool {
    m.wr <= e.0 < m.wr + m.pr && m.cs < e.1 <= m.cs + m.pc
}

/// What the window collector's rows hold after the cells `s`: rows of `pc`
/// cells, each the text of the listed cell at its place, and a row for every
/// listed cell in the window, the last row holding one.
pub open spec fn data_ok(m: WindowModel, s: Seq<(int, int, Seq<char>)>) -> bool {
    &&& m.data.len() <= m.pr
    &&& forall|ri: int| 0 <= ri < m.data.len() ==> (#[trigger] m.data[ri]).len() == m.pc
    &&& forall|ri: int, ci: int|
        0 <= ri < m.data.len() && 0 <= ci < m.pc ==> #[trigger] m.data[ri][ci] == lookup(s, m.wr + ri, m.cs + ci + 1)
    &&& forall|j: int| 0 <= j < s.len() && in_window(m, #[trigger] s[j]) ==> s[j].0 - m.wr < m.data.len()
    &&& m.data.len() > 0 ==> exists|j: int|
        0 <= j < s.len() && in_window(m, #[trigger] s[j]) && s[j].0 == m.wr + m.data.len() - 1
}

/// The window collector holds what the cells `s` put in its header and rows.
pub open spec fn window_ok(m: WindowModel, s: Seq<(int, int, Seq<char>)>) -> bool {
    header_ok(m, s) && data_ok(m, s)
}

pub open spec fn same_frame(m: WindowModel, n: WindowModel) -> bool {
    n.pc == m.pc && n.pr == m.pr && n.wr == m.wr && n.cs == m.cs
}

proof fn lemma_push_lookup(s: Seq<(int, int, Seq<char>)>, e: (int, int, Seq<char>), r: int, c: int)
    ensures
        lookup(s.push(e), r, c) == (if e.0 == r && e.1 == c {
            e.2
        } else {
            lookup(s, r, c)
        }),
        has_cell(s.push(e), r, c) == (has_cell(s, r, c) || (e.0 == r && e.1 == c)),
{
    assert(s.push(e).drop_last() =~= s);
    assert(s.push(e).last() == e);
    if has_cell(s, r, c) {
        let j = choose|j: int| 0 <= j < s.len() && (#[trigger] s[j]).0 == r && s[j].1 == c;
        assert(s.push(e)[j] == s[j]);
    }
    if e.0 == r && e.1 == c {
        assert(s.push(e)[s.len() as int] == e);
    }
    if has_cell(s.push(e), r, c) && !(e.0 == r && e.1 == c) {
        let j = choose|j: int| 0 <= j < s.push(e).len() && (#[trigger] s.push(e)[j]).0 == r && s.push(e)[j].1 == c;
        assert(s.push(e)[j] == s[j]);
    }
}

/// One cell offered to the window collector keeps what it holds as
/// described; the scan always goes on.
proof fn lemma_window_step(m: WindowModel, s: Seq<(int, int, Seq<char>)>, r: usize, c: usize, v: Seq<char>)
    requires
        window_ok(m, s),
    ensures
        ({
            let m2 = if m.wants(r, c) {
                m.next(r, c, v).0
            } else {
                m
            };
            &&& window_ok(m2, s.push((r as int, c as int, v)))
            &&& same_frame(m, m2)
            &&& m.next(r, c, v).1
        }),
{
    let e = (r as int, c as int, v);
    let s2 = s.push(e);
    assert forall|rr: int, cc: int| #![trigger lookup(s2, rr, cc)] #![trigger has_cell(s2, rr, cc)]
        true implies lookup(s2, rr, cc) == (if e.0 == rr && e.1 == cc { e.2 } else { lookup(s, rr, cc) })
        && has_cell(s2, rr, cc) == (has_cell(s, rr, cc) || (e.0 == rr && e.1 == cc)) by {
        lemma_push_lookup(s, e, rr, cc);
    }
    assert(s2[s.len() as int] == e);
    assert forall|j: int| 0 <= j < s.len() implies #[trigger] s2[j] == s[j] by {}
    let m2 = if m.wants(r, c) {
        m.next(r, c, v).0
    } else {
        m
    };
    // the header
    if header_cell(m, r, c) {
        let h = pad_row(m.header, m.pc as int);
        assert(h.len() == m.pc);
        assert(m2.header == h.update(c - 1, v));
        assert forall|i: int| 0 <= i < m2.header.len() implies #[trigger] m2.header[i] == lookup(s2, 1, i + 1) by {
            if i != c - 1 {
                if m.header.len() == 0 {
                    lemma_lookup_absent(s, 1, i + 1);
                    assert(!has_cell(s, 1, i + 1));
                    assert(h[i] == empties(m.pc - m.header.len())[i]);
                } else {
                    assert(h[i] == m.header[i]);
                }
            }
        }
    } else {
        assert(m2.header == m.header);
    }
    // the rows
    if window_cell(m, r, c) {
        let ri = r - m.wr;
        let d = pad_rows(m.data, ri + 1, m.pc as int);
        assert(in_window(m, e));
        assert forall|i: int| 0 <= i < d.len() implies (#[trigger] d[i]).len() == m.pc by {
            if i >= m.data.len() {
                assert(d[i] == empties(m.pc as int));
            }
        }
        assert(m2.data == d.update(ri, d[ri].update(c - m.cs - 1, v)));
        assert forall|i: int, ci: int| m.data.len() <= i < d.len() && 0 <= ci < m.pc implies #[trigger] d[i][ci] == lookup(s, m.wr + i, m.cs + ci + 1) by {
            assert(d[i] == empties(m.pc as int));
            assert(!has_cell(s, m.wr + i, m.cs + ci + 1)) by {
                if has_cell(s, m.wr + i, m.cs + ci + 1) {
                    let j = choose|j: int| 0 <= j < s.len() && (#[trigger] s[j]).0 == m.wr + i && s[j].1 == m.cs + ci + 1;
                    assert(in_window(m, s[j]));
                }
            }
            lemma_lookup_absent(s, m.wr + i, m.cs + ci + 1);
        }
        assert forall|i: int, ci: int| 0 <= i < m2.data.len() && 0 <= ci < m2.pc implies #[trigger] m2.data[i][ci] == lookup(s2, m2.wr + i, m2.cs + ci + 1) by {
            if i < m.data.len() {
                assert(d[i] == m.data[i]);
            }
        }
        assert forall|i: int| 0 <= i < m2.data.len() implies (#[trigger] m2.data[i]).len() == m2.pc by {
            if i != ri {
                assert(m2.data[i] == d[i]);
            }
        }
        assert forall|j: int| 0 <= j < s2.len() && in_window(m2, #[trigger] s2[j]) implies s2[j].0 - m2.wr < m2.data.len() by {
            if j < s.len() {
                assert(s2[j] == s[j]);
            }
        }
        if m.data.len() < ri + 1 {
            assert(in_window(m2, s2[s.len() as int]));
        } else if m2.data.len() > 0 {
            let j = choose|j: int| 0 <= j < s.len() && in_window(m, #[trigger] s[j]) && s[j].0 == m.wr + m.data.len() - 1;
            assert(s2[j] == s[j]);
        }
    } else {
        assert(m2.data == m.data);
        assert(!in_window(m, e));
        assert forall|j: int| 0 <= j < s2.len() && in_window(m2, #[trigger] s2[j]) implies s2[j].0 - m2.wr < m2.data.len() by {
            if j < s.len() {
                assert(s2[j] == s[j]);
            }
        }
        if m2.data.len() > 0 {
            let j = choose|j: int| 0 <= j < s.len() && in_window(m, #[trigger] s[j]) && s[j].0 == m.wr + m.data.len() - 1;
            assert(s2[j] == s[j]);
        }
    }
}

/// Feeding a row to the window collector keeps what it holds as described.
proof fn lemma_window_feed_row(r: usize, cells: Seq<(usize, Seq<char>)>, m: WindowModel, s: Seq<(int, int, Seq<char>)>)
    requires
        window_ok(m, s),
    ensures
        window_ok(feed_row(r, cells, false, m).0, s + row_cells(r, cells)),
        feed_row(r, cells, false, m).1 == Flow::Done,
        same_frame(m, feed_row(r, cells, false, m).0),
    decreases cells.len(),
{
    if cells.len() == 0 {
        assert(s + row_cells(r, cells) =~= s);
    } else {
        let e = (r as int, cells[0].0 as int, cells[0].1);
        lemma_window_step(m, s, r, cells[0].0, cells[0].1);
        let m2 = if m.wants(r, cells[0].0) {
            m.next(r, cells[0].0, cells[0].1).0
        } else {
            m
        };
        assert(s.push(e) + row_cells(r, cells.drop_first()) =~= s + row_cells(r, cells));
        lemma_window_feed_row(r, cells.drop_first(), m2, s.push(e));
    }
}

/// Feeding rows to the window collector keeps what it holds as described
/// for the rows before the first one numbered above `max_row`.
pub proof fn lemma_window_feed_rows(
    rows: Seq<(usize, Seq<(usize, Seq<char>)>)>,
    max_row: usize,
    m: WindowModel,
    s: Seq<(int, int, Seq<char>)>,
) -> (k: int)
    requires
        window_ok(m, s),
    ensures
        0 <= k <= rows.len(),
        k == rows.len() || rows[k].0 > max_row,
        window_ok(feed_rows(rows, false, max_row, m).0, s + flat_cells(rows.take(k))),
        same_frame(m, feed_rows(rows, false, max_row, m).0),
    decreases rows.len(),
{
    if rows.len() == 0 {
        assert(s + flat_cells(rows.take(0)) =~= s);
        0
    } else if rows[0].0 > max_row {
        assert(rows.take(0).len() == 0);
        assert(s + flat_cells(rows.take(0)) =~= s);
        0
    } else {
        lemma_window_feed_row(rows[0].0, rows[0].1, m, s);
        let f = feed_row(rows[0].0, rows[0].1, false, m);
        let s2 = s + row_cells(rows[0].0, rows[0].1);
        let k2 = lemma_window_feed_rows(rows.drop_first(), max_row, f.0, s2);
        let t = rows.take(k2 + 1);
        assert(t[0] == rows[0]);
        assert(t.drop_first() =~= rows.drop_first().take(k2));
        assert(flat_cells(t) == row_cells(rows[0].0, rows[0].1) + flat_cells(rows.drop_first().take(k2)));
        assert(s2 + flat_cells(rows.drop_first().take(k2)) =~= s + flat_cells(t));
        if k2 < rows.drop_first().len() {
            assert(rows[k2 + 1] == rows.drop_first()[k2]);
        }
        k2 + 1
    }
}

/// A row without its trailing empty cells does not see empty cells added
/// at its end.
pub proof fn lemma_trim_padded(a: Seq<Seq<char>>, b: Seq<Seq<char>>)
    requires
        b.len() <= a.len(),
        forall|i: int| 0 <= i < b.len() ==> #[trigger] a[i] == b[i],
        forall|i: int| b.len() <= i < a.len() ==> (#[trigger] a[i]).len() == 0,
    ensures
        trim_row_spec(a) == trim_row_spec(b),
    decreases a.len(),
{
    if a.len() == b.len() {
        assert(a =~= b);
    } else {
        assert(a.last() == a[a.len() - 1]);
        lemma_trim_padded(a.drop_last(), b);
    }
}

pub proof fn lemma_flat_cells_append(a: Seq<(usize, Seq<(usize, Seq<char>)>)>, b: Seq<(usize, Seq<(usize, Seq<char>)>)>)
    ensures
        flat_cells(a + b) == flat_cells(a) + flat_cells(b),
    decreases a.len(),
{
    if a.len() == 0 {
        assert(a + b =~= b);
        assert(flat_cells(a) + flat_cells(b) =~= flat_cells(b));
    } else {
        assert((a + b)[0] == a[0]);
        assert((a + b).drop_first() =~= a.drop_first() + b);
        lemma_flat_cells_append(a.drop_first(), b);
        assert(flat_cells(a + b) =~= flat_cells(a) + flat_cells(b));
    }
}

/// The cells of rows numbered above `t` are in rows numbered above `t`.
pub proof fn lemma_flat_cells_above(rows: Seq<(usize, Seq<(usize, Seq<char>)>)>, t: int)
    requires
        forall|i: int| 0 <= i < rows.len() ==> (#[trigger] rows[i]).0 > t,
    ensures
        forall|j: int| 0 <= j < flat_cells(rows).len() ==> (#[trigger] flat_cells(rows)[j]).0 > t,
    decreases rows.len(),
{
    if rows.len() > 0 {
        assert forall|i: int| 0 <= i < rows.drop_first().len() implies (#[trigger] rows.drop_first()[i]).0 > t by {
            assert(rows.drop_first()[i] == rows[i + 1]);
        }
        lemma_flat_cells_above(rows.drop_first(), t);
        let a = row_cells(rows[0].0, rows[0].1);
        let b = flat_cells(rows.drop_first());
        assert(rows[0].0 > t);
        assert forall|j: int| 0 <= j < (a + b).len() implies (#[trigger] (a + b)[j]).0 > t by {
            if j < a.len() {
                assert((a + b)[j] == a[j]);
            } else {
                assert((a + b)[j] == b[j - a.len()]);
            }
        }
    }
}

/// Rows numbered in increasing order.
pub open spec fn rows_ascending(rows: Seq<(usize, Seq<(usize, Seq<char>)>)>) -> bool {
    forall|i: int, j: int| 0 <= i < j < rows.len() ==> (#[trigger] rows[i]).0 < (#[trigger] rows[j]).0
}


/// Cells listed before others, none of them in row `r`, do not change the
/// lookups in row `r`.
pub proof fn lemma_lookup_skip_prefix(a: Seq<(int, int, Seq<char>)>, b: Seq<(int, int, Seq<char>)>, r: int, c: int)
    requires
        forall|j: int| 0 <= j < a.len() ==> (#[trigger] a[j]).0 != r,
    ensures
        lookup(a + b, r, c) == lookup(b, r, c),
    decreases b.len(),
{
    if b.len() == 0 {
        assert(a + b =~= a);
        assert(!has_cell(a, r, c));
        lemma_lookup_absent(a, r, c);
    } else {
        assert((a + b).drop_last() =~= a + b.drop_last());
        assert((a + b).last() == b.last());
        lemma_lookup_skip_prefix(a, b.drop_last(), r, c);
    }
}

/// The text a grid's cell list gives for row `r`, column `c`: the grid's
/// own cell, empty outside it.
pub proof fn lemma_lookup_grid(g: Seq<Seq<Seq<char>>>, ri: int, r: int, c: int)
    requires
        0 <= ri <= r - 1,
        1 <= c,
    ensures
        lookup(grid_cells(g, ri), r, c) == (if r - 1 < g.len() && c <= g[r - 1].len() {
            g[r - 1][c - 1]
        } else {
            Seq::<char>::empty()
        }),
    decreases r - 1 - ri,
{
    if ri >= g.len() {
        assert(grid_cells(g, ri) =~= Seq::<(int, int, Seq<char>)>::empty());
    } else if ri < r - 1 {
        lemma_grid_row_cells_place(g, ri, 0);
        lemma_lookup_skip_prefix(grid_row_cells(g, ri, 0), grid_cells(g, ri + 1), r, c);
        lemma_lookup_grid(g, ri + 1, r, c);
    } else {
        lemma_grid_cells_rows(g, ri + 1);
        lemma_lookup_other_rows(grid_row_cells(g, ri, 0), grid_cells(g, ri + 1), r, c);
        if c == 1 {
            let rest = grid_row_cells(g, ri, 1);
            lemma_grid_row_cells_place(g, ri, 1);
            assert(!has_cell(rest, r, 1));
            if g[ri].len() == 0 {
                assert(grid_row_cells(g, ri, 0) =~= Seq::<(int, int, Seq<char>)>::empty());
            } else if g[ri][0].len() > 0 {
                lemma_lookup_first((r, 1, g[ri][0]), rest);
            } else {
                lemma_lookup_absent(rest, r, 1);
                assert(g[ri][0] =~= Seq::<char>::empty());
            }
        } else if g[ri].len() == 0 {
            assert(grid_row_cells(g, ri, 0) =~= Seq::<(int, int, Seq<char>)>::empty());
        } else {
            lemma_lookup_grid_row(g, ri, 1, c);
            if g[ri][0].len() > 0 {
                lemma_lookup_skip_first((r, 1, g[ri][0]), grid_row_cells(g, ri, 1), r, c);
            }
        }
    }
}

/// The cells of a grid from row index `ri` are in its rows, at columns of
/// their row.
pub proof fn lemma_grid_cells_inside(g: Seq<Seq<Seq<char>>>, ri: int)
    requires
        0 <= ri,
    ensures
        forall|j: int| 0 <= j < grid_cells(g, ri).len() ==> (#[trigger] grid_cells(g, ri)[j]).0 <= g.len(),
    decreases g.len() - ri,
{
    if ri < g.len() {
        lemma_grid_cells_inside(g, ri + 1);
        lemma_grid_row_cells_place(g, ri, 0);
        let a = grid_row_cells(g, ri, 0);
        let b = grid_cells(g, ri + 1);
        assert forall|j: int| 0 <= j < (a + b).len() implies (#[trigger] (a + b)[j]).0 <= g.len() by {
            if j < a.len() {
                assert((a + b)[j] == a[j]);
            } else {
                assert((a + b)[j] == b[j - a.len()]);
            }
        }
    }
}

} // verus!
