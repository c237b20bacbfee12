//! The shared-strings table of a workbook (`xl/sharedStrings.xml`).
use vstd::prelude::*;
use crate::bytes::{bytes_at, occurs_at};
use crate::sheet_xml::{strings_view, unescape, unescape_spec};

verus! {

pub open spec fn si_empty() -> Seq<u8> {
    seq![0x3cu8, 0x73, 0x69, 0x2f, 0x3e]
}

pub open spec fn si_open() -> Seq<u8> {
    seq![0x3cu8, 0x73, 0x69]
}

pub open spec fn si_close() -> Seq<u8> {
    seq![0x3cu8, 0x2f, 0x73, 0x69]
}

/// First index at or after `i` holding `>`, or the length.
pub open spec fn gt_from(x: Seq<u8>, i: int) -> int
    decreases x.len() - i,
{
    if 0 <= i < x.len() && x[i] != 0x3e {
        gt_from(x, i + 1)
    } else {
        i
    }
}

/// First index at or after `i` where `pat` occurs, or the length.
pub open spec fn pat_from(x: Seq<u8>, i: int, pat: Seq<u8>) -> int
    decreases x.len() - i,
{
    if 0 <= i < x.len() && !occurs_at(x, i, pat) {
        pat_from(x, i + 1, pat)
    } else {
        i
    }
}

pub proof fn lemma_gt_from(x: Seq<u8>, i: int)
    ensures
        i <= gt_from(x, i),
        0 <= i <= x.len() ==> gt_from(x, i) <= x.len(),
    decreases x.len() - i,
{
    if 0 <= i < x.len() && x[i] != 0x3e {
        lemma_gt_from(x, i + 1);
    }
}

pub proof fn lemma_pat_from(x: Seq<u8>, i: int, pat: Seq<u8>)
    ensures
        i <= pat_from(x, i, pat),
        0 <= i <= x.len() ==> pat_from(x, i, pat) <= x.len(),
    decreases x.len() - i,
{
    if 0 <= i < x.len() && !occurs_at(x, i, pat) {
        lemma_pat_from(x, i + 1, pat);
    }
}

/// The strings of the table from position `i` on, given the reader's state:
/// the text of the current item, whether an item is open, and the items so
/// far. `None` when a `<t` tag inside an item never closes with `>` (where
/// the reader would slice past the end).
pub open spec fn sst_from(
    x: Seq<u8>,
    i: int,
    cur: Seq<char>,
    in_si: bool,
    out: Seq<Seq<char>>,
) -> Option<Seq<Seq<char>>>
    decreases x.len() + 8 - i,
{
    if i < 0 || i >= x.len() {
        Some(out)
    } else if x[i] != 0x3c {
        sst_from(x, i + 1, cur, in_si, out)
    } else if occurs_at(x, i, si_empty()) {
        sst_from(x, i + 5, cur, in_si, out.push(seq![]))
    } else if occurs_at(x, i, si_open()) {
        sst_from(x, i + 3, seq![], true, out)
    } else if occurs_at(x, i, si_close()) {
        sst_from(x, i + 4, seq![], false, out.push(cur))
    } else if in_si && occurs_at(x, i, crate::sheet_xml::open_t()) {
        let gt = gt_from(x, i + 2);
        proof {
            lemma_gt_from(x, i + 2);
        }
        if gt + 1 > x.len() {
            None
        } else {
            let e = pat_from(x, gt + 1, crate::sheet_xml::close_t());
            proof {
                lemma_pat_from(x, gt + 1, crate::sheet_xml::close_t());
            }
            sst_from(x, e + 3, cur + unescape_spec(x.subrange(gt + 1, e)), in_si, out)
        }
    } else {
        let gt = gt_from(x, i);
        proof {
            lemma_gt_from(x, i);
        }
        sst_from(x, gt + 1, cur, in_si, out)
    }
}

/// What `parse_shared_strings` returns, `None` where it would not return.
pub open spec fn shared_strings_spec(x: Seq<u8>) -> Option<Seq<Seq<char>>> {
    sst_from(x, 0, seq![], false, seq![])
}

fn skip_to_gt(x: &[u8], i: usize) -> (r: usize)
    requires
        i <= x@.len(),
    ensures
        r == gt_from(x@, i as int),
        i <= r <= x@.len(),
{
    let mut j = i;
    while j < x.len() && x[j] != 0x3e
        invariant
            i <= j <= x@.len(),
            gt_from(x@, i as int) == gt_from(x@, j as int),
        decreases x@.len() - j,
    {
        j = j + 1;
    }
    j
}

/// Reads the table's strings, each the joined text of its `<t>` runs.
/// `None` exactly where a `<t` tag inside an item is never closed.
pub fn parse_shared_strings(xml: &[u8]) -> (r: Option<Vec<String>>)
    requires
        xml@.len() <= isize::MAX,
    ensures
        match r {
            Some(v) => shared_strings_spec(xml@) == Some(strings_view(v@)),
            None => shared_strings_spec(xml@) is None,
        },
{
    let e5: [u8; 5] = [0x3c, 0x73, 0x69, 0x2f, 0x3e];
    let o3: [u8; 3] = [0x3c, 0x73, 0x69];
    let c4: [u8; 4] = [0x3c, 0x2f, 0x73, 0x69];
    let ot: [u8; 2] = [0x3c, 0x74];
    let ct: [u8; 3] = [0x3c, 0x2f, 0x74];
    assert(e5@ =~= si_empty());
    assert(o3@ =~= si_open());
    assert(c4@ =~= si_close());
    assert(ot@ =~= crate::sheet_xml::open_t());
    assert(ct@ =~= crate::sheet_xml::close_t());
    let mut out: Vec<String> = Vec::new();
    let mut current = String::new();
    let mut in_si = false;
    let mut i: usize = 0;
    let n = xml.len();
    assert(strings_view(out@) =~= Seq::<Seq<char>>::empty());
    while i < n
        invariant
            n == xml@.len() <= isize::MAX,
            e5@ == si_empty(),
            o3@ == si_open(),
            c4@ == si_close(),
            ot@ == crate::sheet_xml::open_t(),
            ct@ == crate::sheet_xml::close_t(),
            i <= n + 8,
            shared_strings_spec(xml@) == sst_from(xml@, i as int, current@, in_si, strings_view(out@)),
        decreases n + 8 - i,
    {
        if xml[i] != 0x3c {
            i = i + 1;
            continue;
        }
        if bytes_at(xml, i, e5.as_slice()) {
            let ghost before = strings_view(out@);
            out.push(String::new());
            assert(strings_view(out@) =~= before.push(seq![]));
            i = i + 5;
        } else if bytes_at(xml, i, o3.as_slice()) {
            in_si = true;
            current = String::new();
            i = i + 3;
        } else if bytes_at(xml, i, c4.as_slice()) {
            in_si = false;
            let ghost before = strings_view(out@);
            let ghost cur = current@;
            let done = current;
            out.push(done);
            current = String::new();
            assert(strings_view(out@) =~= before.push(cur));
            i = i + 4;
        } else if in_si && bytes_at(xml, i, ot.as_slice()) {
            let gt = skip_to_gt(xml, i + 2);
            if gt + 1 > n {
                return None;
            }
            let start = gt + 1;
            let mut e = start;
            while e < n && !bytes_at(xml, e, ct.as_slice())
                invariant
                    start <= e <= n == xml@.len(),
                    ct@ == crate::sheet_xml::close_t(),
                    crate::shared_strings::pat_from(xml@, start as int, ct@) == pat_from(
                        xml@,
                        e as int,
                        ct@,
                    ),
                decreases n - e,
            {
                e = e + 1;
            }
            let run = unescape(&xml[start..e]);
            current.append(run.as_str());
            i = e + 3;
        } else {
            let gt = skip_to_gt(xml, i);
            i = gt + 1;
        }
    }
    Some(out)
}

} // verus!
