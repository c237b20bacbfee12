//! Streaming over the cells of a worksheet's XML (`<row>` and `<c>`
//! elements), handing each non-empty wanted cell to a sink.
use vstd::prelude::*;
use crate::bytes::{bytes_at, find_byte, find_bytes, find_seq, lemma_find_seq, lemma_next_byte, next_byte, occurs_at, parse_usize, parse_usize_spec};
use crate::sheet_xml::{
    attr_spec, attr_value, cell_kind, cell_value, cell_value_spec, col_from_ref_bytes, col_ref_spec,
    is_alpha, kind_spec, lemma_attr_from, strings_view, ColRef,
};

verus! {

/// How a scan ended: the XML ran out, the sink asked to stop, or a row or
/// column number did not fit in `usize`.
#[derive(PartialEq, Eq, Structural, Clone, Copy, Debug)]
pub enum Flow {
    Done,
    Stopped,
    Fault,
}

/// The abstract state of a cell sink.
pub trait SinkModel: Sized {
    /// Whether the cell at (`row`, `col`) (1-based) is wanted.
    spec fn wants(&self, row: usize, col: usize) -> bool;

    /// The state after taking a wanted non-empty cell, and whether the scan
    /// goes on.
    spec fn next(&self, row: usize, col: usize, value: Seq<char>) -> (Self, bool);
}

/// Receives the cells of a scan.
pub trait CellSink: Sized {
    type M: SinkModel;

    spec fn model(&self) -> Self::M;

    fn admits(&self, row: usize, col: usize) -> (b: bool)
        ensures
            b == self.model().wants(row, col),
    ;

    fn accept(&mut self, row: usize, col: usize, value: String) -> (go: bool)
        ensures
            (final(self).model(), go) == old(self).model().next(row, col, value@),
    ;
}

/// First index at or after `i` and before `end` holding `b`, else `i` when
/// `i >= end`, else `end`.
pub open spec fn scan_to(x: Seq<u8>, i: int, end: int, b: u8) -> int
    decreases end - i,
{
    if i < end && 0 <= i < x.len() && x[i] != b {
        scan_to(x, i + 1, end, b)
    } else if i < end && !(0 <= i < x.len()) {
        end
    } else {
        i
    }
}

pub proof fn lemma_scan_to(x: Seq<u8>, i: int, end: int, b: u8)
    ensures
        i <= scan_to(x, i, end, b),
        i <= end ==> scan_to(x, i, end, b) <= end,
        i > end ==> scan_to(x, i, end, b) == i,
    decreases end - i,
{
    if i < end && 0 <= i < x.len() && x[i] != b {
        lemma_scan_to(x, i + 1, end, b);
    }
}

pub open spec fn close_c() -> Seq<u8> {
    seq![0x3cu8, 0x2f, 0x63]
}

/// First `k` at or after `k0` where `</c` starts with `k + 3 <= end`, else
/// the `k` where the search gave up.
pub open spec fn close_c_from(x: Seq<u8>, k: int, end: int) -> int
    decreases end - k,
{
    if k + 3 <= end && !occurs_at(x, k, close_c()) {
        close_c_from(x, k + 1, end)
    } else {
        k
    }
}

pub proof fn lemma_close_c_from(x: Seq<u8>, k: int, end: int)
    ensures
        k <= close_c_from(x, k, end),
        close_c_from(x, k, end) + 3 <= end ==> occurs_at(x, close_c_from(x, k, end), close_c()),
    decreases end - k,
{
    if k + 3 <= end && !occurs_at(x, k, close_c()) {
        lemma_close_c_from(x, k + 1, end);
    }
}

pub open spec fn key_r() -> Seq<u8> {
    seq![0x72u8]
}

/// The cells of a row from position `i` (before `rc`, the row's `</row`),
/// given the running column counter `cc` for cells without a reference.
pub open spec fn cells_from<S: SinkModel>(
    x: Seq<u8>,
    sst: Seq<Seq<char>>,
    i: int,
    rc: int,
    row: usize,
    cc: int,
    sink: S,
) -> (S, Flow)
    decreases rc + 2 - i,
{
    let i1 = scan_to(x, i, rc, 0x3c);
    proof {
        lemma_scan_to(x, i, rc, 0x3c);
    }
    if i1 >= rc || i1 + 1 >= rc || rc > x.len() || i < 0 {
        (sink, Flow::Done)
    } else if x[i1 + 1] == 0x2f || x[i1 + 1] != 0x63 {
        let m = scan_to(x, i1, rc, 0x3e);
        proof {
            lemma_scan_to(x, i1, rc, 0x3e);
        }
        cells_from(x, sst, m + 1, rc, row, cc, sink)
    } else {
        let j = scan_to(x, i1 + 2, rc, 0x3e);
        proof {
            lemma_scan_to(x, i1 + 2, rc, 0x3e);
        }
        if j >= rc {
            (sink, Flow::Done)
        } else {
            let tag = x.subrange(i1 + 2, j);
            let cr = match attr_spec(tag, key_r()) {
                Some(r) => col_ref_spec(tag.subrange(r.0, r.1)),
                None => ColRef::NoLetters,
            };
            if cr is Overflow {
                (sink, Flow::Fault)
            } else {
                let col: usize = match cr {
                    ColRef::Col(c) => c,
                    _ => (cc + 1) as usize,
                };
                let cc2 = match cr {
                    ColRef::Col(_) => cc,
                    _ => cc + 1,
                };
                let included = sink.wants(row, col);
                if x[j - 1] == 0x2f {
                    cells_from(x, sst, j + 1, rc, row, cc2, sink)
                } else {
                    let k = close_c_from(x, j + 1, rc);
                    let cell_close = if k + 3 <= rc {
                        k
                    } else {
                        rc
                    };
                    let v = cell_value_spec(x.subrange(j + 1, cell_close), kind_spec(tag), sst);
                    if included && v.len() > 0 && !sink.next(row, col, v).1 {
                        (sink.next(row, col, v).0, Flow::Stopped)
                    } else {
                        let s2 = if included && v.len() > 0 {
                            sink.next(row, col, v).0
                        } else {
                            sink
                        };
                        let m = scan_to(x, cell_close, rc, 0x3e);
                        proof {
                            lemma_close_c_from(x, j + 1, rc);
                            lemma_scan_to(x, cell_close, rc, 0x3e);
                        }
                        cells_from(x, sst, m + 1, rc, row, cc2, s2)
                    }
                }
            }
        }
    }
}

fn skip_until(x: &[u8], i: usize, end: usize, b: u8) -> (r: usize)
    requires
        i <= end <= x@.len(),
    ensures
        r == scan_to(x@, i as int, end as int, b),
        i <= r <= end,
{
    let mut j = i;
    while j < end && x[j] != b
        invariant
            i <= j <= end <= x@.len(),
            scan_to(x@, i as int, end as int, b) == scan_to(x@, j as int, end as int, b),
        decreases end - j,
    {
        j = j + 1;
    }
    j
}

/// Scans the cells of one row, between `content_start` and `row_close`.
pub fn scan_row_cells<S: CellSink>(
    xml: &[u8],
    content_start: usize,
    row_close: usize,
    row: usize,
    sst: &Vec<String>,
    sink: &mut S,
) -> (f: Flow)
    requires
        content_start <= row_close <= xml@.len() <= isize::MAX,
    ensures
        (final(sink).model(), f) == cells_from(
            xml@,
            strings_view(sst@),
            content_start as int,
            row_close as int,
            row,
            0,
            old(sink).model(),
        ),
{
    let ghost sv = strings_view(sst@);
    let ghost target = cells_from(xml@, sv, content_start as int, row_close as int, row, 0, sink.model());
    let rc = row_close;
    let r_key: [u8; 1] = [0x72];
    let cc_close: [u8; 3] = [0x3c, 0x2f, 0x63];
    assert(r_key@ =~= key_r());
    assert(cc_close@ =~= close_c());
    let mut i = content_start;
    let mut cc: usize = 0;
    loop
        invariant
            content_start <= i <= rc + 1,
            rc <= xml@.len() <= isize::MAX,
            cc <= i,
            sv == strings_view(sst@),
            r_key@ == key_r(),
            cc_close@ == close_c(),
            rc == row_close,
            target == cells_from(xml@, sv, content_start as int, rc as int, row, 0, old(sink).model()),
            target == cells_from(xml@, sv, i as int, rc as int, row, cc as int, sink.model()),
        decreases rc + 2 - i,
    {
        if i > rc {
            proof {
                lemma_scan_to(xml@, i as int, rc as int, 0x3c);
            }
            return Flow::Done;
        }
        let i1 = skip_until(xml, i, rc, 0x3c);
        if i1 >= rc || i1 + 1 >= rc {
            return Flow::Done;
        }
        if xml[i1 + 1] == 0x2f || xml[i1 + 1] != 0x63 {
            let m = skip_until(xml, i1, rc, 0x3e);
            i = m + 1;
            continue;
        }
        let j = skip_until(xml, i1 + 2, rc, 0x3e);
        if j >= rc {
            return Flow::Done;
        }
        let tag = &xml[i1 + 2..j];
        let cr = match attr_value(tag, r_key.as_slice()) {
            Some((a, b)) => col_from_ref_bytes(&tag[a..b]),
            None => ColRef::NoLetters,
        };
        let col: usize;
        match cr {
            ColRef::Overflow => {
                return Flow::Fault;
            },
            ColRef::Col(c) => {
                col = c;
            },
            ColRef::NoLetters => {
                cc = cc + 1;
                col = cc;
            },
        }
        let kind = cell_kind(tag);
        let included = sink.admits(row, col);
        if xml[j - 1] == 0x2f {
            i = j + 1;
            continue;
        }
        let content = j + 1;
        let mut k = content;
        while k + 3 <= rc && !bytes_at(xml, k, cc_close.as_slice())
            invariant
                content <= k <= rc + 3,
                rc <= xml@.len() <= isize::MAX,
                cc_close@ == close_c(),
                close_c_from(xml@, content as int, rc as int) == close_c_from(xml@, k as int, rc as int),
            decreases rc + 3 - k,
        {
            k = k + 1;
        }
        let cell_close = if k + 3 <= rc {
            k
        } else {
            rc
        };
        proof {
            lemma_close_c_from(xml@, content as int, rc as int);
        }
        if included {
            let value = cell_value(&xml[content..cell_close], kind, sst);
            if !value.as_str().is_empty() {
                let go = sink.accept(row, col, value);
                if !go {
                    return Flow::Stopped;
                }
            }
        }
        let m = skip_until(xml, cell_close, rc, 0x3e);
        i = m + 1;
    }
}

} // verus!

verus! {

pub open spec fn row_open() -> Seq<u8> {
    seq![0x3cu8, 0x72, 0x6f, 0x77]
}

pub open spec fn row_close_tag() -> Seq<u8> {
    seq![0x3cu8, 0x2f, 0x72, 0x6f, 0x77]
}

/// The row number a `<row ...>` tag gives: its `r` attribute when that is a
/// number, else one more than the previous row (`None`: that overflows).
pub open spec fn row_number(tag: Seq<u8>, prev: usize) -> Option<usize> {
    let parsed = match attr_spec(tag, key_r()) {
        Some(r) => parse_usize_spec(tag.subrange(r.0, r.1)),
        None => None,
    };
    match parsed {
        Some(v) => Some(v),
        None => if prev == usize::MAX {
            None
        } else {
            Some((prev + 1) as usize)
        },
    }
}

/// The rows from position `pos` on, `row` being the previous row's number;
/// rows numbered above `max_row` end the scan.
pub open spec fn rows_from<S: SinkModel>(
    x: Seq<u8>,
    sst: Seq<Seq<char>>,
    max_row: usize,
    pos: int,
    row: usize,
    sink: S,
) -> (S, Flow)
    decreases x.len() + 8 - pos,
{
    match find_seq(x, pos, row_open()) {
        None => (sink, Flow::Done),
        Some(rs) => {
            proof {
                lemma_find_seq(x, pos, row_open());
            }
            let next = if rs + 4 < x.len() {
                x[rs + 4]
            } else {
                0x3e
            };
            if is_alpha(next) {
                rows_from(x, sst, max_row, rs + 4, row, sink)
            } else {
                match next_byte(x, rs, 0x3e) {
                    None => (sink, Flow::Done),
                    Some(re) => {
                        proof {
                            lemma_next_byte(x, rs, 0x3e);
                        }
                        if re <= rs {
                            (sink, Flow::Done)
                        } else {
                            match row_number(x.subrange(rs + 1, re), row) {
                                None => (sink, Flow::Fault),
                                Some(r) => if r > max_row {
                                    (sink, Flow::Done)
                                } else if x[re - 1] == 0x2f {
                                    rows_from(x, sst, max_row, re + 1, r, sink)
                                } else {
                                    match find_seq(x, re + 1, row_close_tag()) {
                                        None => (sink, Flow::Done),
                                        Some(rc) => {
                                            proof {
                                                lemma_find_seq(x, re + 1, row_close_tag());
                                            }
                                            let (s2, f) = cells_from(x, sst, re + 1, rc, r, 0, sink);
                                            if f == Flow::Done {
                                                rows_from(x, sst, max_row, rc, r, s2)
                                            } else {
                                                (s2, f)
                                            }
                                        },
                                    }
                                },
                            }
                        }
                    },
                }
            }
        },
    }
}

/// A whole scan of a worksheet's XML.
pub open spec fn scan_spec<S: SinkModel>(x: Seq<u8>, sst: Seq<Seq<char>>, max_row: usize, sink: S) -> (S, Flow) {
    rows_from(x, sst, max_row, 0, 0, sink)
}

/// Streams worksheet cells to `sink`, row by row, stopping after the last
/// row numbered at most `max_row`, or when the sink asks to stop.
pub fn scan_sheet<S: CellSink>(xml: &[u8], sst: &Vec<String>, max_row: usize, sink: &mut S) -> (f: Flow)
    requires
        xml@.len() <= isize::MAX,
    ensures
        (final(sink).model(), f) == scan_spec(xml@, strings_view(sst@), max_row, old(sink).model()),
{
    let ghost sv = strings_view(sst@);
    let ghost target = scan_spec(xml@, sv, max_row, sink.model());
    let ro: [u8; 4] = [0x3c, 0x72, 0x6f, 0x77];
    let rcl: [u8; 5] = [0x3c, 0x2f, 0x72, 0x6f, 0x77];
    let r_key: [u8; 1] = [0x72];
    assert(ro@ =~= row_open());
    assert(rcl@ =~= row_close_tag());
    assert(r_key@ =~= key_r());
    let n = xml.len();
    let mut pos: usize = 0;
    let mut row: usize = 0;
    loop
        invariant
            pos <= n + 8,
            n == xml@.len() <= isize::MAX,
            sv == strings_view(sst@),
            ro@ == row_open(),
            rcl@ == row_close_tag(),
            r_key@ == key_r(),
            target == scan_spec(xml@, sv, max_row, old(sink).model()),
            target == rows_from(xml@, sv, max_row, pos as int, row, sink.model()),
        decreases n + 8 - pos,
    {
        proof {
            lemma_find_seq(xml@, pos as int, row_open());
        }
        let rs = match find_bytes(xml, pos, ro.as_slice()) {
            Some(v) => v,
            None => return Flow::Done,
        };
        let next: u8 = if rs + 4 < n {
            xml[rs + 4]
        } else {
            0x3e
        };
        if (0x41 <= next && next <= 0x5a) || (0x61 <= next && next <= 0x7a) {
            pos = rs + 4;
            continue;
        }
        proof {
            lemma_next_byte(xml@, rs as int, 0x3e);
        }
        let re = match find_byte(xml, rs, 0x3e) {
            Some(v) => v,
            None => return Flow::Done,
        };
        if re <= rs {
            return Flow::Done;
        }
        let tag = &xml[rs + 1..re];
        let parsed = match attr_value(tag, r_key.as_slice()) {
            Some((a, b)) => parse_usize(&tag[a..b]),
            None => None,
        };
        let r: usize = match parsed {
            Some(v) => v,
            None => {
                if row == usize::MAX {
                    return Flow::Fault;
                }
                row + 1
            },
        };
        if r > max_row {
            return Flow::Done;
        }
        if xml[re - 1] == 0x2f {
            pos = re + 1;
            row = r;
            continue;
        }
        proof {
            lemma_find_seq(xml@, re + 1, row_close_tag());
        }
        let rc = match find_bytes(xml, re + 1, rcl.as_slice()) {
            Some(v) => v,
            None => return Flow::Done,
        };
        let f = scan_row_cells(xml, re + 1, rc, r, sst, sink);
        if f != Flow::Done {
            return f;
        }
        pos = rc;
        row = r;
    }
}

} // verus!
