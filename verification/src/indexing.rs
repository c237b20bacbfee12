//! Keeping the index in step with the disk: which statements a batch of
//! scanned files needs, which files left the disk, and how extracted cell
//! texts become sheet updates.
use vstd::prelude::*;
use vstd::hash_map::StringHashMap;
use vstd::hash_set::StringHashSet;
use crate::text::{chars_of, texts};

verus! {

/// A statement of a batch update of the file table.
#[derive(Clone, Debug, PartialEq)]
pub enum FileOp {
    /// Set the name, modification time and sheet count of an indexed file,
    /// from update number `update` of the batch.
    UpdateFile { update: usize, file_id: i64, sheet_count: i64 },
    /// Delete the sheets of a file.
    DeleteSheets { file_id: i64 },
    /// Insert the file of update number `update`.
    InsertFile { update: usize, sheet_count: i64 },
    /// Insert a sheet of file `file_id`, or of the file inserted last where
    /// that is `None`, keeping the cell text it had before.
    InsertSheet { file: Option<i64>, sheet_name: String, cell_text: Option<String> },
}

/// The model of a statement.
pub enum FileOpView {
    UpdateFile { update: usize, file_id: i64, sheet_count: i64 },
    DeleteSheets { file_id: i64 },
    InsertFile { update: usize, sheet_count: i64 },
    InsertSheet { file: Option<i64>, sheet_name: Seq<char>, cell_text: Option<Seq<char>> },
}

pub open spec fn opt_text(o: Option<String>) -> Option<Seq<char>> {
    match o {
        Some(s) => Some(s@),
        None => None,
    }
}

pub open spec fn op_view(o: FileOp) -> FileOpView {
    match o {
        FileOp::UpdateFile { update, file_id, sheet_count } => FileOpView::UpdateFile {
            update,
            file_id,
            sheet_count,
        },
        FileOp::DeleteSheets { file_id } => FileOpView::DeleteSheets { file_id },
        FileOp::InsertFile { update, sheet_count } => FileOpView::InsertFile { update, sheet_count },
        FileOp::InsertSheet { file, sheet_name, cell_text } => FileOpView::InsertSheet {
            file,
            sheet_name: sheet_name@,
            cell_text: opt_text(cell_text),
        },
    }
}

pub open spec fn ops_view(v: Seq<FileOp>) -> Seq<FileOpView> {
    v.map_values(|o: FileOp| op_view(o))
}

/// The id an indexed path has (the last entry for it).
pub open spec fn indexed_id(indexed: Seq<(Seq<char>, i64)>, path: Seq<char>) -> Option<i64>
    decreases indexed.len(),
{
    if indexed.len() == 0 {
        None
    } else if indexed.last().0 == path {
        Some(indexed.last().1)
    } else {
        indexed_id(indexed.drop_last(), path)
    }
}

pub type SheetRow = (i64, Seq<char>, Option<Seq<char>>);

/// The sheets `(name, cell text)` of file `id` among the stored sheet rows,
/// in row order.
pub open spec fn own_sheets(rows: Seq<SheetRow>, id: i64) -> Seq<(Seq<char>, Option<Seq<char>>)>
    decreases rows.len(),
{
    if rows.len() == 0 {
        seq![]
    } else {
        let r = own_sheets(rows.drop_last(), id);
        if rows.last().0 == id {
            r.push((rows.last().1, rows.last().2))
        } else {
            r
        }
    }
}

pub open spec fn sheet_names_of(own: Seq<(Seq<char>, Option<Seq<char>>)>) -> Seq<Seq<char>> {
    own.map_values(|s: (Seq<char>, Option<Seq<char>>)| s.0)
}

/// The cell text stored for sheet `name` (the last row with that name).
pub open spec fn old_text(own: Seq<(Seq<char>, Option<Seq<char>>)>, name: Seq<char>) -> Option<Seq<char>>
    decreases own.len(),
{
    if own.len() == 0 {
        None
    } else if own.last().0 == name {
        own.last().1
    } else {
        old_text(own.drop_last(), name)
    }
}

pub type UpdateView = (Seq<char>, Seq<char>, Seq<Seq<char>>);

/// The statements of update `k` (file name, path, sheet names): an indexed
/// file gets its row updated and, unless its stored sheets are exactly the
/// new ones, its sheets replaced, each keeping its old cell text; a new file
/// is inserted with its sheets, which have no cell text yet.
pub open spec fn update_ops(
    k: usize,
    u: UpdateView,
    indexed: Seq<(Seq<char>, i64)>,
    rows: Seq<SheetRow>,
) -> Seq<FileOpView> {
    let count = u.2.len() as i64;
    match indexed_id(indexed, u.1) {
        Some(id) => {
            let own = own_sheets(rows, id);
            let head = seq![FileOpView::UpdateFile { update: k, file_id: id, sheet_count: count }];
            if own.len() > 0 && sheet_names_of(own) == u.2 {
                head
            } else {
                head + seq![FileOpView::DeleteSheets { file_id: id }] + u.2.map_values(
                    |n: Seq<char>|
                        FileOpView::InsertSheet {
                            file: Some(id),
                            sheet_name: n,
                            cell_text: old_text(own, n),
                        },
                )
            }
        },
        None => seq![FileOpView::InsertFile { update: k, sheet_count: count }] + u.2.map_values(
            |n: Seq<char>| FileOpView::InsertSheet { file: None, sheet_name: n, cell_text: None },
        ),
    }
}

/// The statements of the first `n` updates, in order.
pub open spec fn batch_ops(
    updates: Seq<UpdateView>,
    n: int,
    indexed: Seq<(Seq<char>, i64)>,
    rows: Seq<SheetRow>,
) -> Seq<FileOpView>
    decreases n,
{
    if n <= 0 {
        seq![]
    } else {
        batch_ops(updates, n - 1, indexed, rows) + update_ops(
            (n - 1) as usize,
            updates[n - 1],
            indexed,
            rows,
        )
    }
}

/// How many of the first `n` updates are files already indexed.
pub open spec fn count_indexed(updates: Seq<UpdateView>, n: int, indexed: Seq<(Seq<char>, i64)>) -> int
    decreases n,
{
    if n <= 0 {
        0
    } else {
        count_indexed(updates, n - 1, indexed) + if indexed_id(indexed, updates[n - 1].1) is Some {
            1int
        } else {
            0
        }
    }
}

pub open spec fn updates_view(v: Seq<(String, String, Vec<String>)>) -> Seq<UpdateView> {
    v.map_values(|u: (String, String, Vec<String>)| (u.0@, u.1@, texts(u.2@)))
}

pub open spec fn indexed_view(v: Seq<(String, i64)>) -> Seq<(Seq<char>, i64)> {
    v.map_values(|p: (String, i64)| (p.0@, p.1))
}

pub open spec fn sheet_rows_view(v: Seq<(i64, String, Option<String>)>) -> Seq<SheetRow> {
    v.map_values(|r: (i64, String, Option<String>)| (r.0, r.1@, opt_text(r.2)))
}

/// The plan of a batch: its statements, and how many files it adds and
/// how many it updates.
#[derive(Clone, Debug, PartialEq)]
pub struct BatchPlan {
    pub ops: Vec<FileOp>,
    pub added: usize,
    pub updated: usize,
}

fn own_sheets_exec(rows: &[(i64, String, Option<String>)], id: i64) -> (r: Vec<(String, Option<String>)>)
    ensures
        r@.map_values(|s: (String, Option<String>)| (s.0@, opt_text(s.1))) == own_sheets(
            sheet_rows_view(rows@),
            id,
        ),
{
    let ghost rv = sheet_rows_view(rows@);
    let mut out: Vec<(String, Option<String>)> = Vec::new();
    let mut i: usize = 0;
    while i < rows.len()
        invariant
            i <= rows@.len(),
            rv == sheet_rows_view(rows@),
            out@.map_values(|s: (String, Option<String>)| (s.0@, opt_text(s.1))) == own_sheets(rv.take(i as int), id),
        decreases rows@.len() - i,
    {
        assert(rv.take(i + 1).drop_last() =~= rv.take(i as int));
        assert(rv.take(i + 1).last() == rv[i as int]);
        if rows[i].0 == id {
            let ghost before = out@.map_values(|s: (String, Option<String>)| (s.0@, opt_text(s.1)));
            let t = match &rows[i].2 {
                Some(x) => Some(x.clone()),
                None => None,
            };
            let n = rows[i].1.clone();
            let ghost item = (n@, opt_text(t));
            out.push((n, t));
            assert(out@.map_values(|s: (String, Option<String>)| (s.0@, opt_text(s.1))) =~= before.push(item));
        }
        i = i + 1;
    }
    assert(rv.take(i as int) =~= rv);
    out
}

fn names_equal(own: &Vec<(String, Option<String>)>, names: &Vec<String>) -> (r: bool)
    ensures
        r == (sheet_names_of(own@.map_values(|s: (String, Option<String>)| (s.0@, opt_text(s.1))))
            == texts(names@)),
{
    let ghost ov = sheet_names_of(own@.map_values(|s: (String, Option<String>)| (s.0@, opt_text(s.1))));
    if own.len() != names.len() {
        assert(ov.len() != texts(names@).len());
        return false;
    }
    let mut i: usize = 0;
    while i < own.len()
        invariant
            i <= own@.len() == names@.len(),
            ov == sheet_names_of(own@.map_values(|s: (String, Option<String>)| (s.0@, opt_text(s.1)))),
            forall|t: int| 0 <= t < i ==> ov[t] == texts(names@)[t],
        decreases own@.len() - i,
    {
        if !crate::workbook::same_text(own[i].0.as_str(), names[i].as_str()) {
            assert(ov[i as int] != texts(names@)[i as int]);
            return false;
        }
        i = i + 1;
    }
    assert(ov =~= texts(names@));
    true
}

fn old_text_exec(own: &Vec<(String, Option<String>)>, name: &str) -> (r: Option<String>)
    ensures
        opt_text(r) == old_text(own@.map_values(|s: (String, Option<String>)| (s.0@, opt_text(s.1))), name@),
{
    let ghost ov = own@.map_values(|s: (String, Option<String>)| (s.0@, opt_text(s.1)));
    let mut i = own.len();
    assert(ov.take(i as int) =~= ov);
    while i > 0
        invariant
            i <= own@.len(),
            ov == own@.map_values(|s: (String, Option<String>)| (s.0@, opt_text(s.1))),
            old_text(ov, name@) == old_text(ov.take(i as int), name@),
        decreases i,
    {
        assert(ov.take(i as int).drop_last() =~= ov.take(i - 1));
        assert(ov.take(i as int).last() == ov[i - 1]);
        if crate::workbook::same_text(own[i - 1].0.as_str(), name) {
            return match &own[i - 1].1 {
                Some(x) => Some(x.clone()),
                None => None,
            };
        }
        i = i - 1;
    }
    None
}

/// Plans a batch of scanned files `(file name, path, sheet names)` against
/// the indexed files `(path, id)` and the stored sheets `(file id, name,
/// cell text)` of the indexed ones among them, in id order.
pub fn plan_file_batch(
    updates: &Vec<(String, String, Vec<String>)>,
    indexed: &Vec<(String, i64)>,
    sheet_rows: &Vec<(i64, String, Option<String>)>,
) -> (r: BatchPlan)
    requires
        forall|k: int| 0 <= k < updates@.len() ==> (#[trigger] updates@[k]).2@.len() <= i64::MAX,
    ensures
        ops_view(r.ops@) == batch_ops(
            updates_view(updates@),
            updates@.len() as int,
            indexed_view(indexed@),
            sheet_rows_view(sheet_rows@),
        ),
        r.updated == count_indexed(updates_view(updates@), updates@.len() as int, indexed_view(indexed@)),
        r.added + r.updated == updates@.len(),
{
    let ghost uv = updates_view(updates@);
    let ghost iv = indexed_view(indexed@);
    let ghost rv = sheet_rows_view(sheet_rows@);
    let mut ids: StringHashMap<i64> = StringHashMap::new();
    let mut j: usize = 0;
    while j < indexed.len()
        invariant
            j <= indexed@.len(),
            iv == indexed_view(indexed@),
            forall|p: Seq<char>| #![trigger ids@.contains_key(p)]
                (ids@.contains_key(p) <==> indexed_id(iv.take(j as int), p) is Some)
                && (ids@.contains_key(p) ==> indexed_id(iv.take(j as int), p) == Some(ids@[p])),
        decreases indexed@.len() - j,
    {
        assert(iv.take(j + 1).drop_last() =~= iv.take(j as int));
        assert(iv.take(j + 1).last() == iv[j as int]);
        ids.insert(indexed[j].0.clone(), indexed[j].1);
        j = j + 1;
    }
    assert(iv.take(j as int) =~= iv);
    let mut ops: Vec<FileOp> = Vec::new();
    let mut added: usize = 0;
    let mut updated: usize = 0;
    let mut k: usize = 0;
    while k < updates.len()
        invariant
            k <= updates@.len(),
            uv == updates_view(updates@),
            iv == indexed_view(indexed@),
            rv == sheet_rows_view(sheet_rows@),
            forall|t: int| 0 <= t < updates@.len() ==> (#[trigger] updates@[t]).2@.len() <= i64::MAX,
            forall|p: Seq<char>| #![trigger ids@.contains_key(p)]
                (ids@.contains_key(p) <==> indexed_id(iv, p) is Some)
                && (ids@.contains_key(p) ==> indexed_id(iv, p) == Some(ids@[p])),
            ops_view(ops@) == batch_ops(uv, k as int, iv, rv),
            updated == count_indexed(uv, k as int, iv),
            added + updated == k,
        decreases updates@.len() - k,
    {
        let u = &updates[k];
        assert(uv[k as int] == (u.0@, u.1@, texts(u.2@)));
        let count = u.2.len() as i64;
        let ghost before = ops_view(ops@);
        let ghost target = update_ops(k, uv[k as int], iv, rv);
        assert(ids@.contains_key(u.1@) == (indexed_id(iv, u.1@) is Some));
        match ids.get(u.1.as_str()) {
            Some(id) => {
                let id = *id;
                let own = own_sheets_exec(sheet_rows.as_slice(), id);
                let ghost ov = own@.map_values(|s: (String, Option<String>)| (s.0@, opt_text(s.1)));
                ops.push(FileOp::UpdateFile { update: k, file_id: id, sheet_count: count });
                updated = updated + 1;
                if own.len() > 0 && names_equal(&own, &u.2) {
                    assert(ops_view(ops@) =~= before + target);
                } else {
                    ops.push(FileOp::DeleteSheets { file_id: id });
                    let ghost mid = ops_view(ops@);
                    let mut t: usize = 0;
                    while t < u.2.len()
                        invariant
                            t <= u.2@.len(),
                            ov == own_sheets(rv, id),
                            ov == own@.map_values(|s: (String, Option<String>)| (s.0@, opt_text(s.1))),
                            ops_view(ops@) == mid + texts(u.2@).take(t as int).map_values(
                                |n: Seq<char>|
                                    FileOpView::InsertSheet {
                                        file: Some(id),
                                        sheet_name: n,
                                        cell_text: old_text(ov, n),
                                    },
                            ),
                        decreases u.2@.len() - t,
                    {
                        let ghost b = ops_view(ops@);
                        let text = old_text_exec(&own, u.2[t].as_str());
                        let name = u.2[t].clone();
                        let ghost item = FileOpView::InsertSheet {
                            file: Some(id),
                            sheet_name: name@,
                            cell_text: opt_text(text),
                        };
                        ops.push(FileOp::InsertSheet { file: Some(id), sheet_name: name, cell_text: text });
                        assert(ops_view(ops@) =~= b.push(item));
                        assert(texts(u.2@).take(t + 1) =~= texts(u.2@).take(t as int).push(texts(u.2@)[t as int]));
                        t = t + 1;
                    }
                    assert(texts(u.2@).take(t as int) =~= texts(u.2@));
                    assert(ops_view(ops@) =~= before + target);
                }
            },
            None => {
                ops.push(FileOp::InsertFile { update: k, sheet_count: count });
                added = added + 1;
                let ghost mid = ops_view(ops@);
                let mut t: usize = 0;
                while t < u.2.len()
                    invariant
                        t <= u.2@.len(),
                        ops_view(ops@) == mid + texts(u.2@).take(t as int).map_values(
                            |n: Seq<char>| FileOpView::InsertSheet { file: None, sheet_name: n, cell_text: None },
                        ),
                    decreases u.2@.len() - t,
                {
                    let ghost b = ops_view(ops@);
                    let name = u.2[t].clone();
                    let ghost item = FileOpView::InsertSheet { file: None, sheet_name: name@, cell_text: None };
                    ops.push(FileOp::InsertSheet { file: None, sheet_name: name, cell_text: None });
                    assert(ops_view(ops@) =~= b.push(item));
                    assert(texts(u.2@).take(t + 1) =~= texts(u.2@).take(t as int).push(texts(u.2@)[t as int]));
                    t = t + 1;
                }
                assert(texts(u.2@).take(t as int) =~= texts(u.2@));
                assert(ops_view(ops@) =~= before + target);
            },
        }
        k = k + 1;
    }
    BatchPlan { ops, added, updated }
}

} // verus!

verus! {

/// The ids of the indexed files whose path is no longer on disk, in order.
pub open spec fn gone_ids(indexed: Seq<(Seq<char>, i64)>, on_disk: Set<Seq<char>>) -> Seq<i64>
    decreases indexed.len(),
{
    if indexed.len() == 0 {
        seq![]
    } else {
        let r = gone_ids(indexed.drop_last(), on_disk);
        if on_disk.contains(indexed.last().0) {
            r
        } else {
            r.push(indexed.last().1)
        }
    }
}

/// The positions, in order, of the scanned files that have at least one
/// sheet name.
pub open spec fn with_sheets(names: Seq<Vec<String>>) -> Seq<usize>
    decreases names.len(),
{
    if names.len() == 0 {
        seq![]
    } else {
        let r = with_sheets(names.drop_last());
        if names.last()@.len() > 0 {
            r.push((names.len() - 1) as usize)
        } else {
            r
        }
    }
}

/// Which scanned files go into the index update: the positions of those
/// whose list of sheet names is not empty, in order. A file whose sheets
/// could not be read is left out.
pub fn files_with_sheets(names: &Vec<Vec<String>>) -> (r: Vec<usize>)
    ensures
        r@ == with_sheets(names@),
{
    let mut out: Vec<usize> = Vec::new();
    let mut i: usize = 0;
    while i < names.len()
        invariant
            i <= names@.len(),
            out@ == with_sheets(names@.take(i as int)),
        decreases names@.len() - i,
    {
        assert(names@.take(i + 1).drop_last() =~= names@.take(i as int));
        assert(names@.take(i + 1).last() == names@[i as int]);
        if names[i].len() > 0 {
            out.push(i);
        }
        i = i + 1;
    }
    assert(names@.take(i as int) =~= names@);
    out
}

/// `a` comes before `b` in character order, a proper prefix first (the
/// order of `str`'s comparison: UTF-8 keeps the order of code points).
pub open spec fn text_lt(a: Seq<char>, b: Seq<char>) -> bool
    decreases a.len(),
{
    if b.len() == 0 {
        false
    } else if a.len() == 0 {
        true
    } else if a[0] != b[0] {
        (a[0] as u32) < (b[0] as u32)
    } else {
        text_lt(a.drop_first(), b.drop_first())
    }
}

pub proof fn lemma_text_lt_irreflexive(a: Seq<char>)
    ensures
        !text_lt(a, a),
    decreases a.len(),
{
    if a.len() > 0 {
        lemma_text_lt_irreflexive(a.drop_first());
    }
}

pub proof fn lemma_text_lt_trans(a: Seq<char>, b: Seq<char>, c: Seq<char>)
    requires
        text_lt(a, b),
        text_lt(b, c),
    ensures
        text_lt(a, c),
    decreases a.len(),
{
    if a.len() > 0 && b.len() > 0 && c.len() > 0 && a[0] == b[0] && b[0] == c[0] {
        lemma_text_lt_trans(a.drop_first(), b.drop_first(), c.drop_first());
    }
}

pub proof fn lemma_text_lt_total(a: Seq<char>, b: Seq<char>)
    ensures
        text_lt(a, b) || text_lt(b, a) || a == b,
    decreases a.len(),
{
    if a.len() == 0 && b.len() == 0 {
        assert(a =~= b);
    } else if a.len() > 0 && b.len() > 0 && a[0] == b[0] {
        lemma_text_lt_total(a.drop_first(), b.drop_first());
        if a.drop_first() == b.drop_first() {
            assert(a.len() == a.drop_first().len() + 1);
            assert(b.len() == b.drop_first().len() + 1);
            assert(a.len() == b.len());
            assert forall|i: int| 0 <= i < a.len() implies a[i] == b[i] by {
                if i > 0 {
                    assert(a[i] == a.drop_first()[i - 1]);
                    assert(b[i] == b.drop_first()[i - 1]);
                }
            }
            assert(a =~= b);
        }
    } else if a.len() > 0 && b.len() > 0 {
        vstd::utf8::char_u32_cast(a[0], a[0] as u32);
        vstd::utf8::char_u32_cast(b[0], b[0] as u32);
        assert(a[0] as u32 != b[0] as u32);
    }
}

fn chars_lt(a: &Vec<char>, b: &Vec<char>) -> (r: bool)
    ensures
        r == text_lt(a@, b@),
{
    let mut i: usize = 0;
    assert(a@.skip(0) =~= a@);
    assert(b@.skip(0) =~= b@);
    while i < a.len() && i < b.len() && a[i] == b[i]
        invariant
            i <= a@.len(),
            i <= b@.len(),
            text_lt(a@, b@) == text_lt(a@.skip(i as int), b@.skip(i as int)),
        decreases a@.len() - i,
    {
        assert(a@.skip(i as int).drop_first() =~= a@.skip(i + 1));
        assert(b@.skip(i as int).drop_first() =~= b@.skip(i + 1));
        assert(a@.skip(i as int)[0] == a@[i as int]);
        assert(b@.skip(i as int)[0] == b@[i as int]);
        i = i + 1;
    }
    if i == b.len() {
        return false;
    }
    if i == a.len() {
        return true;
    }
    assert(a@.skip(i as int)[0] == a@[i as int]);
    assert(b@.skip(i as int)[0] == b@[i as int]);
    (a[i] as u32) < (b[i] as u32)
}

/// `order` lists positions of `ps` in an order that keeps the texts
/// non-decreasing and equal texts in the order of their positions.
pub open spec fn sorted_stably(ps: Seq<Seq<char>>, order: Seq<usize>) -> bool {
    &&& forall|i: int| 0 <= i < order.len() ==> (#[trigger] order[i]) < ps.len()
    &&& forall|i: int, j: int| 0 <= i < j < order.len() ==> !text_lt(ps[#[trigger] order[j] as int], ps[#[trigger] order[i] as int])
    &&& forall|i: int, j: int|
        0 <= i < j < order.len() && ps[#[trigger] order[i] as int] == ps[#[trigger] order[j] as int] ==> order[i] < order[j]
}

/// Every position below `n` listed exactly once.
pub open spec fn lists_positions(order: Seq<usize>, n: int) -> bool {
    &&& order.len() == n
    &&& forall|i: int| 0 <= i < order.len() ==> (#[trigger] order[i]) < n
    &&& forall|i: int, j: int| 0 <= i < j < order.len() ==> #[trigger] order[i] != #[trigger] order[j]
}

/// The order in which the files found on disk are listed: their paths in
/// character order, equal paths in the order they were found.
pub fn path_order(paths: &Vec<String>) -> (r: Vec<usize>)
    ensures
        lists_positions(r@, paths@.len() as int),
        sorted_stably(texts(paths@), r@),
{
    let ghost ps = texts(paths@);
    let mut cs: Vec<Vec<char>> = Vec::new();
    let mut i: usize = 0;
    while i < paths.len()
        invariant
            i <= paths@.len(),
            ps == texts(paths@),
            cs@.len() == i,
            forall|t: int| 0 <= t < i ==> (#[trigger] cs@[t])@ == ps[t],
        decreases paths@.len() - i,
    {
        cs.push(chars_of(paths[i].as_str()));
        i = i + 1;
    }
    let mut order: Vec<usize> = Vec::new();
    let mut n: usize = 0;
    while n < paths.len()
        invariant
            n <= paths@.len(),
            ps == texts(paths@),
            cs@.len() == paths@.len(),
            forall|t: int| 0 <= t < cs@.len() ==> (#[trigger] cs@[t])@ == ps[t],
            lists_positions(order@, n as int),
            sorted_stably(ps, order@),
        decreases paths@.len() - n,
    {
        let ghost x = ps[n as int];
        let mut lo: usize = 0;
        let mut hi: usize = order.len();
        while lo < hi
            invariant
                lo <= hi <= order@.len(),
                n < paths@.len(),
                x == ps[n as int],
                cs@.len() == paths@.len(),
                forall|t: int| 0 <= t < cs@.len() ==> (#[trigger] cs@[t])@ == ps[t],
                lists_positions(order@, n as int),
                sorted_stably(ps, order@),
                forall|k: int| 0 <= k < lo ==> !text_lt(x, ps[#[trigger] order@[k] as int]),
                forall|k: int| hi <= k < order@.len() ==> text_lt(x, ps[#[trigger] order@[k] as int]),
            decreases hi - lo,
        {
            let mid = lo + (hi - lo) / 2;
            let om = order[mid];
            if chars_lt(&cs[n], &cs[om]) {
                proof {
                    assert forall|k: int| mid <= k < order@.len() implies text_lt(x, ps[#[trigger] order@[k] as int]) by {
                        if k > mid {
                            let y = ps[order@[mid as int] as int];
                            let z = ps[order@[k] as int];
                            assert(!text_lt(z, y));
                            lemma_text_lt_total(y, z);
                            if text_lt(y, z) {
                                lemma_text_lt_trans(x, y, z);
                            }
                        }
                    }
                }
                hi = mid;
            } else {
                proof {
                    assert forall|k: int| 0 <= k <= mid implies !text_lt(x, ps[#[trigger] order@[k] as int]) by {
                        if k < mid {
                            let y = ps[order@[k] as int];
                            let z = ps[order@[mid as int] as int];
                            assert(!text_lt(z, y));
                            lemma_text_lt_total(y, z);
                            if text_lt(x, y) {
                                if text_lt(y, z) {
                                    lemma_text_lt_trans(x, y, z);
                                }
                            }
                        }
                    }
                }
                lo = mid + 1;
            }
        }
        let p = lo;
        let ghost old_order = order@;
        order.insert(p, n);
        proof {
            let o = order@;
            assert(o == old_order.insert(p as int, n));
            assert forall|k: int| 0 <= k < o.len() implies #[trigger] o[k] == (if k < p {
                old_order[k]
            } else if k == p {
                n
            } else {
                old_order[k - 1]
            }) by {}
            assert forall|a: int, b: int| 0 <= a < b < o.len() implies !text_lt(ps[#[trigger] o[b] as int], ps[#[trigger] o[a] as int]) by {
                if a < p && b == p {
                } else if a == p && b > p {
                    let y = ps[old_order[p as int] as int];
                    let z = ps[old_order[b - 1] as int];
                    if text_lt(z, x) {
                        lemma_text_lt_trans(z, x, y);
                        if b - 1 == p {
                            lemma_text_lt_irreflexive(z);
                        }
                    }
                } else if a < p && b > p {
                    assert(o[b] == old_order[b - 1]);
                } else if a > p {
                    assert(o[a] == old_order[a - 1]);
                    assert(o[b] == old_order[b - 1]);
                }
            }
            assert forall|a: int, b: int|
                0 <= a < b < o.len() && ps[#[trigger] o[a] as int] == ps[#[trigger] o[b] as int] implies o[a] < o[b] by {
                if a < p && b == p {
                } else if a == p && b > p {
                    let y = ps[old_order[p as int] as int];
                    let z = ps[old_order[b - 1] as int];
                    assert(z == x);
                    if b - 1 == p {
                        lemma_text_lt_irreflexive(x);
                    } else {
                        assert(!text_lt(z, y));
                    }
                } else if a < p && b > p {
                    assert(o[b] == old_order[b - 1]);
                } else if a > p {
                    assert(o[a] == old_order[a - 1]);
                    assert(o[b] == old_order[b - 1]);
                }
            }
            assert forall|a: int, b: int| 0 <= a < b < o.len() implies #[trigger] o[a] != #[trigger] o[b] by {
                if a > p {
                    assert(o[a] == old_order[a - 1]);
                }
                if b > p {
                    assert(o[b] == old_order[b - 1]);
                }
            }
        }
        n = n + 1;
    }
    order
}

/// The ids of indexed files `(path, id)` whose path is not among the files
/// found on disk.
pub fn ids_to_delete(indexed: &Vec<(String, i64)>, on_disk: &Vec<String>) -> (r: Vec<i64>)
    ensures
        r@ == gone_ids(indexed_view(indexed@), texts(on_disk@).to_set()),
{
    let ghost disk = texts(on_disk@);
    let mut present = StringHashSet::new();
    let mut j: usize = 0;
    while j < on_disk.len()
        invariant
            j <= on_disk@.len(),
            disk == texts(on_disk@),
            present@ == disk.take(j as int).to_set(),
        decreases on_disk@.len() - j,
    {
        present.insert(on_disk[j].clone());
        assert(disk.take(j + 1) =~= disk.take(j as int).push(disk[j as int]));
        assert(disk.take(j + 1).to_set() =~= disk.take(j as int).to_set().insert(disk[j as int])) by {
            disk.take(j as int).lemma_push_to_set_commute(disk[j as int]);
        }
        j = j + 1;
    }
    assert(disk.take(j as int) =~= disk);
    let ghost iv = indexed_view(indexed@);
    let mut out: Vec<i64> = Vec::new();
    let mut i: usize = 0;
    while i < indexed.len()
        invariant
            i <= indexed@.len(),
            iv == indexed_view(indexed@),
            present@ == disk.to_set(),
            out@ == gone_ids(iv.take(i as int), disk.to_set()),
        decreases indexed@.len() - i,
    {
        assert(iv.take(i + 1).drop_last() =~= iv.take(i as int));
        assert(iv.take(i + 1).last() == iv[i as int]);
        if !present.contains(indexed[i].0.as_str()) {
            out.push(indexed[i].1);
        }
        i = i + 1;
    }
    assert(iv.take(i as int) =~= iv);
    out
}

pub type PendingView = (i64, Seq<char>, Seq<char>);

pub open spec fn pending_view(v: Seq<(i64, String, String)>) -> Seq<PendingView> {
    v.map_values(|p: (i64, String, String)| (p.0, p.1@, p.2@))
}

/// Some pending sheet belongs to file `f`.
pub open spec fn file_seen(ps: Seq<PendingView>, f: Seq<char>) -> bool {
    exists|j: int| 0 <= j < ps.len() && (#[trigger] ps[j]).2 == f
}

/// The files of the pending sheets, each once, in order of first appearance.
pub open spec fn files_in_order(ps: Seq<PendingView>) -> Seq<Seq<char>>
    decreases ps.len(),
{
    if ps.len() == 0 {
        seq![]
    } else {
        let r = files_in_order(ps.drop_last());
        if file_seen(ps.drop_last(), ps.last().2) {
            r
        } else {
            r.push(ps.last().2)
        }
    }
}

/// The pending sheets `(id, name)` of file `f`, in order.
pub open spec fn entries_of(ps: Seq<PendingView>, f: Seq<char>) -> Seq<(i64, Seq<char>)>
    decreases ps.len(),
{
    if ps.len() == 0 {
        seq![]
    } else {
        let r = entries_of(ps.drop_last(), f);
        if ps.last().2 == f {
            r.push((ps.last().0, ps.last().1))
        } else {
            r
        }
    }
}

pub open spec fn entries_view(v: Seq<(i64, String)>) -> Seq<(i64, Seq<char>)> {
    v.map_values(|e: (i64, String)| (e.0, e.1@))
}

pub open spec fn groups_view(v: Seq<(String, Vec<(i64, String)>)>) -> Seq<(Seq<char>, Seq<(i64, Seq<char>)>)> {
    v.map_values(|g: (String, Vec<(i64, String)>)| (g.0@, entries_view(g.1@)))
}

proof fn lemma_file_seen_step(ps: Seq<PendingView>, i: int, f: Seq<char>)
    requires
        0 <= i < ps.len(),
    ensures
        file_seen(ps.take(i + 1), f) == (file_seen(ps.take(i), f) || ps[i].2 == f),
{
    if file_seen(ps.take(i + 1), f) {
        let j = choose|j: int| 0 <= j < ps.take(i + 1).len() && (#[trigger] ps.take(i + 1)[j]).2 == f;
        if j < i {
            assert(ps.take(i)[j] == ps[j]);
        }
    }
    if file_seen(ps.take(i), f) {
        let j = choose|j: int| 0 <= j < ps.take(i).len() && (#[trigger] ps.take(i)[j]).2 == f;
        assert(ps.take(i + 1)[j] == ps[j]);
    }
    if ps[i].2 == f {
        assert(ps.take(i + 1)[i] == ps[i]);
    }
}

proof fn lemma_files_distinct(ps: Seq<PendingView>)
    ensures
        forall|a: int, b: int| 0 <= a < b < files_in_order(ps).len() ==> files_in_order(ps)[a] != files_in_order(ps)[b],
        forall|f: Seq<char>| file_seen(ps, f) <==> files_in_order(ps).contains(f),
    decreases ps.len(),
{
    if ps.len() > 0 {
        lemma_files_distinct(ps.drop_last());
        let r = files_in_order(ps.drop_last());
        assert(ps.drop_last() =~= ps.take(ps.len() - 1));
        assert(ps.take(ps.len() as int) =~= ps);
        assert forall|f: Seq<char>| file_seen(ps, f) <==> files_in_order(ps).contains(f) by {
            lemma_file_seen_step(ps, ps.len() - 1, f);
            if !file_seen(ps.drop_last(), ps.last().2) {
                let q = r.push(ps.last().2);
                assert(files_in_order(ps) =~= q);
                if q.contains(f) {
                    let k = choose|k: int| 0 <= k < q.len() && q[k] == f;
                    if k < r.len() {
                        assert(r[k] == f);
                        assert(r.contains(f));
                    }
                }
                if r.contains(f) {
                    let k = choose|k: int| 0 <= k < r.len() && r[k] == f;
                    assert(q[k] == f);
                }
                assert(q[r.len() as int] == ps.last().2);
            }
        }
        if !file_seen(ps.drop_last(), ps.last().2) {
            assert(!r.contains(ps.last().2));
        }
    }
}

/// Groups the sheets awaiting cell text `(id, name, file path)` by file, in
/// order of first appearance.
pub fn group_pending_by_file(pending: &Vec<(i64, String, String)>) -> (r: Vec<(String, Vec<(i64, String)>)>)
    ensures
        groups_view(r@) == files_in_order(pending_view(pending@)).map_values(
            |f: Seq<char>| (f, entries_of(pending_view(pending@), f)),
        ),
{
    let ghost pv = pending_view(pending@);
    let mut positions: StringHashMap<usize> = StringHashMap::new();
    let mut groups: Vec<(String, Vec<(i64, String)>)> = Vec::new();
    let mut i: usize = 0;
    assert(pv.take(0) =~= Seq::<PendingView>::empty());
    while i < pending.len()
        invariant
            i <= pending@.len(),
            pv == pending_view(pending@),
            groups@.len() == files_in_order(pv.take(i as int)).len(),
            forall|j: int| 0 <= j < groups@.len() ==> #[trigger] groups_view(groups@)[j] == (
                files_in_order(pv.take(i as int))[j],
                entries_of(pv.take(i as int), files_in_order(pv.take(i as int))[j]),
            ),
            forall|f: Seq<char>| #![trigger positions@.contains_key(f)]
                (positions@.contains_key(f) <==> file_seen(pv.take(i as int), f))
                && (positions@.contains_key(f) ==> positions@[f] < groups@.len()
                    && files_in_order(pv.take(i as int))[positions@[f] as int] == f),
            forall|f: Seq<char>| #![trigger entries_of(pv.take(i as int), f)]
                !file_seen(pv.take(i as int), f) ==> entries_of(pv.take(i as int), f) == Seq::<(i64, Seq<char>)>::empty(),
        decreases pending@.len() - i,
    {
        let ghost pre = pv.take(i as int);
        let ghost post = pv.take(i + 1);
        let ghost files = files_in_order(pre);
        let ghost old_groups = groups_view(groups@);
        let ghost old_raw = groups@;
        proof {
            lemma_files_distinct(pre);
        }
        assert(post.drop_last() =~= pre);
        assert(post.last() == pv[i as int]);
        let id = pending[i].0;
        let name = &pending[i].1;
        let path = &pending[i].2;
        assert(pv[i as int] == (id, name@, path@));
        proof {
            assert forall|f: Seq<char>| file_seen(post, f) == (file_seen(pre, f) || path@ == f) by {
                lemma_file_seen_step(pv, i as int, f);
            }
        }
        match positions.get(path.as_str()) {
            Some(p) => {
                let p = *p;
                assert(files_in_order(post) == files);
                let ghost g0 = entries_view(groups@[p as int].1@);
                let nm = name.clone();
                groups[p].1.push((id, nm));
                assert(entries_view(groups@[p as int].1@) =~= g0.push((id, name@)));
                assert forall|j: int| 0 <= j < groups@.len() implies #[trigger] groups_view(groups@)[j] == (
                    files_in_order(post)[j],
                    entries_of(post, files_in_order(post)[j]),
                ) by {
                    assert(old_groups[j] == (files[j], entries_of(pre, files[j])));
                    if j != p {
                        assert(groups@[j] == old_raw[j]);
                        assert(files[j] != path@);
                        assert(entries_of(post, files[j]) == entries_of(pre, files[j]));
                    } else {
                        assert(entries_of(post, path@) == entries_of(pre, path@).push((id, name@)));
                    }
                };
            },
            None => {
                assert(!file_seen(pre, path@));
                assert(files_in_order(post) == files.push(path@));
                let n0 = groups.len();
                let mut g: Vec<(i64, String)> = Vec::new();
                g.push((id, name.clone()));
                groups.push((path.clone(), g));
                positions.insert(path.clone(), n0);
                assert(entries_of(pre, path@) == Seq::<(i64, Seq<char>)>::empty());
                assert(entries_view(groups@[n0 as int].1@) =~= seq![(id, name@)]);
                assert forall|j: int| 0 <= j < groups@.len() implies #[trigger] groups_view(groups@)[j] == (
                    files_in_order(post)[j],
                    entries_of(post, files_in_order(post)[j]),
                ) by {
                    if j < n0 {
                        assert(old_groups[j] == (files[j], entries_of(pre, files[j])));
                        assert(files_in_order(post)[j] == files[j]);
                        assert(groups@[j] == old_raw[j]);
                        assert(files.contains(files[j]));
                        assert(files[j] != path@);
                        assert(entries_of(post, files[j]) == entries_of(pre, files[j]));
                    } else {
                        assert(entries_of(post, path@) == entries_of(pre, path@).push((id, name@)));
                        assert(seq![(id, name@)] =~= Seq::<(i64, Seq<char>)>::empty().push((id, name@)));
                    }
                };
            },
        }
        assert forall|f: Seq<char>| #![trigger entries_of(post, f)]
            !file_seen(post, f) implies entries_of(post, f) == Seq::<(i64, Seq<char>)>::empty() by {
            assert(entries_of(pre, f) == Seq::<(i64, Seq<char>)>::empty());
        }
        i = i + 1;
    }
    assert(pv.take(i as int) =~= pv);
    assert(groups_view(groups@) =~= files_in_order(pv).map_values(|f: Seq<char>| (f, entries_of(pv, f))));
    groups
}

} // verus!

verus! {

/// Pairs each pending sheet with its extracted text, as far as both go.
pub open spec fn zip_updates(entries: Seq<(i64, Seq<char>)>, ts: Seq<Seq<char>>) -> Seq<(Seq<char>, i64)> {
    let n = if entries.len() < ts.len() {
        entries.len()
    } else {
        ts.len()
    };
    Seq::new(n, |k: int| (ts[k], entries[k].0))
}

pub open spec fn extracted_view(r: Result<Vec<String>, String>) -> Option<Seq<Seq<char>>> {
    match r {
        Ok(v) => Some(texts(v@)),
        Err(_) => None,
    }
}

/// The cell-text updates `(text, sheet id)` of the files whose texts could
/// be extracted, how many sheets those files had pending, and how many
/// files failed.
pub open spec fn deep_updates(
    gs: Seq<(Seq<char>, Seq<(i64, Seq<char>)>)>,
    rs: Seq<Option<Seq<Seq<char>>>>,
) -> (Seq<(Seq<char>, i64)>, int, int)
    decreases gs.len(),
{
    if gs.len() == 0 || rs.len() == 0 {
        (seq![], 0, 0)
    } else {
        let (u, p, e) = deep_updates(gs.drop_last(), rs.drop_last());
        match rs.last() {
            Some(t) => (u + zip_updates(gs.last().1, t), p + gs.last().1.len(), e),
            None => (u, p, e + 1),
        }
    }
}

pub open spec fn total_entries(gs: Seq<(Seq<char>, Seq<(i64, Seq<char>)>)>) -> int
    decreases gs.len(),
{
    if gs.len() == 0 {
        0
    } else {
        total_entries(gs.drop_last()) + gs.last().1.len()
    }
}

/// The outcome of a deep-index pass over extracted texts.
#[derive(Clone, Debug, PartialEq)]
pub struct DeepIndexBatch {
    pub updates: Vec<(String, i64)>,
    pub processed: usize,
    pub errors: usize,
}

pub open spec fn pairs_view(v: Seq<(String, i64)>) -> Seq<(Seq<char>, i64)> {
    v.map_values(|p: (String, i64)| (p.0@, p.1))
}

proof fn lemma_total_entries_prefix(gs: Seq<(Seq<char>, Seq<(i64, Seq<char>)>)>, n: int)
    requires
        0 <= n <= gs.len(),
    ensures
        total_entries(gs.take(n)) <= total_entries(gs),
    decreases gs.len() - n,
{
    if n < gs.len() {
        lemma_total_entries_prefix(gs, n + 1);
        assert(gs.take(n + 1).drop_last() =~= gs.take(n));
    } else {
        assert(gs.take(n) =~= gs);
    }
}

/// Turns the texts extracted for each file group (`extracted[k]` for
/// `groups[k]`) into sheet updates.
pub fn deep_index_updates(
    groups: &Vec<(String, Vec<(i64, String)>)>,
    extracted: &Vec<Result<Vec<String>, String>>,
) -> (r: DeepIndexBatch)
    requires
        groups@.len() == extracted@.len(),
        total_entries(groups_view(groups@)) <= usize::MAX,
    ensures
        (pairs_view(r.updates@), r.processed as int, r.errors as int) == deep_updates(
            groups_view(groups@),
            extracted@.map_values(|x: Result<Vec<String>, String>| extracted_view(x)),
        ),
{
    let ghost gv = groups_view(groups@);
    let ghost rv = extracted@.map_values(|x: Result<Vec<String>, String>| extracted_view(x));
    let mut updates: Vec<(String, i64)> = Vec::new();
    let mut processed: usize = 0;
    let mut errors: usize = 0;
    let mut k: usize = 0;
    while k < groups.len()
        invariant
            k <= groups@.len() == extracted@.len(),
            gv == groups_view(groups@),
            rv == extracted@.map_values(|x: Result<Vec<String>, String>| extracted_view(x)),
            total_entries(gv) <= usize::MAX,
            (pairs_view(updates@), processed as int, errors as int) == deep_updates(gv.take(k as int), rv.take(k as int)),
            processed == total_entries_ok(gv.take(k as int), rv.take(k as int)),
            processed <= total_entries(gv.take(k as int)),
            errors <= k,
        decreases groups@.len() - k,
    {
        assert(gv.take(k + 1).drop_last() =~= gv.take(k as int));
        assert(rv.take(k + 1).drop_last() =~= rv.take(k as int));
        assert(gv.take(k + 1).last() == gv[k as int]);
        assert(rv.take(k + 1).last() == rv[k as int]);
        proof {
            lemma_total_entries_prefix(gv, k + 1);
        }
        let entries = &groups[k].1;
        assert(gv[k as int].1 == entries_view(entries@));
        match &extracted[k] {
            Ok(ts) => {
                let ghost before = pairs_view(updates@);
                let ghost z = zip_updates(entries_view(entries@), texts(ts@));
                let mut t: usize = 0;
                while t < entries.len() && t < ts.len()
                    invariant
                        t <= entries@.len(),
                        t <= ts@.len(),
                        z == zip_updates(entries_view(entries@), texts(ts@)),
                        pairs_view(updates@) == before + z.take(t as int),
                    decreases entries@.len() - t,
                {
                    let ghost b = pairs_view(updates@);
                    let text = ts[t].clone();
                    let id = entries[t].0;
                    updates.push((text, id));
                    assert(pairs_view(updates@) =~= b.push((ts@[t as int]@, id)));
                    assert(z.take(t + 1) =~= z.take(t as int).push(z[t as int]));
                    t = t + 1;
                }
                assert(z.take(t as int) =~= z);
                processed = processed + entries.len();
            },
            Err(_) => {
                errors = errors + 1;
            },
        }
        k = k + 1;
    }
    assert(gv.take(k as int) =~= gv);
    assert(rv.take(k as int) =~= rv);
    DeepIndexBatch { updates, processed, errors }
}

/// The pending sheets of the files whose texts could be extracted.
pub open spec fn total_entries_ok(
    gs: Seq<(Seq<char>, Seq<(i64, Seq<char>)>)>,
    rs: Seq<Option<Seq<Seq<char>>>>,
) -> int {
    deep_updates(gs, rs).1
}

/// The searchable text of one sheet, built cell by cell: the non-empty
/// cell values joined by spaces, stopping after the value that takes the
/// running count (each value's characters plus one) past the limit.
pub struct CellText {
    parts: Vec<String>,
    count: usize,
    limit: usize,
}

impl CellText {
    pub closed spec fn parts(&self) -> Seq<Seq<char>> {
        texts(self.parts@)
    }

    /// The running count: characters of the kept values, plus one each.
    pub closed spec fn count(&self) -> nat {
        self.count as nat
    }

    pub closed spec fn limit(&self) -> nat {
        self.limit as nat
    }

    /// Whether the text is complete: the count went past the limit.
    pub open spec fn full(&self) -> bool {
        self.count() > self.limit()
    }

    pub fn new(limit: usize) -> (r: CellText)
        ensures
            r.parts() == Seq::<Seq<char>>::empty(),
            r.count() == 0,
            r.limit() == limit,
    {
        let c = CellText { parts: Vec::new(), count: 0, limit };
        assert(c.parts() =~= Seq::<Seq<char>>::empty());
        c
    }

    /// Adds a cell value; empty values are skipped. Returns whether more
    /// values are wanted.
    pub fn push(&mut self, value: String) -> (more: bool)
        requires
            !old(self).full(),
            old(self).limit() + value@.len() + 1 <= usize::MAX,
        ensures
            final(self).limit() == old(self).limit(),
            value@.len() == 0 ==> final(self).parts() == old(self).parts() && final(self).count() == old(self).count(),
            value@.len() > 0 ==> final(self).parts() == old(self).parts().push(value@) && final(self).count()
                == old(self).count() + value@.len() + 1,
            more == !final(self).full(),
    {
        let n = value.as_str().unicode_len();
        if n == 0 {
            return true;
        }
        let ghost before = self.parts();
        self.count = self.count + n + 1;
        self.parts.push(value);
        assert(self.parts() =~= before.push(value@));
        self.count <= self.limit
    }

    /// The values joined by single spaces.
    pub fn finish(&self) -> (r: String)
        ensures
            r@ == crate::text::join(self.parts(), " "@),
    {
        crate::text::join_strings(&self.parts, " ")
    }
}

} // verus!

verus! {

/// Whether the pending sheets of all groups can be counted in a `usize`.
pub fn total_entries_fit(groups: &Vec<(String, Vec<(i64, String)>)>) -> (r: bool)
    ensures
        r == (total_entries(groups_view(groups@)) <= usize::MAX),
{
    let ghost gv = groups_view(groups@);
    let mut sum: usize = 0;
    let mut k: usize = 0;
    while k < groups.len()
        invariant
            k <= groups@.len(),
            gv == groups_view(groups@),
            sum == total_entries(gv.take(k as int)),
        decreases groups@.len() - k,
    {
        assert(gv.take(k + 1).drop_last() =~= gv.take(k as int));
        assert(gv[k as int].1.len() == groups@[k as int].1@.len());
        let n = groups[k].1.len();
        if sum > usize::MAX - n {
            proof {
                lemma_total_entries_prefix(gv, k + 1);
            }
            return false;
        }
        sum = sum + n;
        k = k + 1;
    }
    assert(gv.take(k as int) =~= gv);
    true
}

} // verus!

verus! {

/// The budget of characters of one sheet's searchable text.
pub const DEEP_INDEX_MAX_CHARS: usize = 50_000_000;

} // verus!
