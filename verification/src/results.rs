//! Shaping what the index returns: counts, the aliases of each sheet, search
//! rows grouped by file, and the CSV export of a search.
use vstd::prelude::*;
use vstd::hash_map::StringHashMap;
use crate::query::{double_quoted, double_quotes};
use crate::text::{decimal, join, join_strings, push_decimal, texts};
use crate::utf8::push_char;
use crate::workbook::same_text;
use crate::types::{IndexStatus, SearchResponse, SearchResult};
use indexmap::IndexMap;

verus! {

/// The index counts: files, sheets, and sheets with and without cell text.
/// `pending` sheets have no cell text yet.
pub fn index_status(file_count: i64, sheet_count: i64, pending: i64) -> (r: IndexStatus)
    requires
        i64::MIN <= sheet_count - pending <= i64::MAX,
    ensures
        r.file_count == file_count,
        r.sheet_count == sheet_count,
        r.pending_deep_index_count == pending,
        r.indexed_cell_sheet_count == (if sheet_count - pending > 0 {
            sheet_count - pending
        } else {
            0
        }),
{
    let d = sheet_count - pending;
    IndexStatus {
        file_count,
        sheet_count,
        indexed_cell_sheet_count: if d > 0 {
            d
        } else {
            0
        },
        pending_deep_index_count: pending,
    }
}

/// The aliases of `sheet` in the alias rows `(alias, sheet)`, in row order.
pub open spec fn aliases_for(rows: Seq<(Seq<char>, Seq<char>)>, sheet: Seq<char>) -> Seq<Seq<char>>
    decreases rows.len(),
{
    if rows.len() == 0 {
        seq![]
    } else {
        let r = aliases_for(rows.drop_last(), sheet);
        if rows.last().1 == sheet {
            r.push(rows.last().0)
        } else {
            r
        }
    }
}

pub open spec fn pair_texts(v: Seq<(String, String)>) -> Seq<(Seq<char>, Seq<char>)> {
    v.map_values(|p: (String, String)| (p.0@, p.1@))
}

/// The aliases of each sheet name, from the rows of the alias table.
pub struct AliasIndex {
    positions: StringHashMap<usize>,
    groups: Vec<(String, Vec<String>)>,
    rows: Ghost<Seq<(Seq<char>, Seq<char>)>>,
}

impl AliasIndex {
    /// The rows `(alias, sheet)` the index was built from.
    pub closed spec fn rows(&self) -> Seq<(Seq<char>, Seq<char>)> {
        self.rows@
    }

    #[verifier::type_invariant]
    spec fn wf(self) -> bool {
        &&& forall|k: Seq<char>|
            #![trigger self.positions@.contains_key(k)]
            self.positions@.contains_key(k) ==> self.positions@[k] < self.groups@.len() && texts(
                self.groups@[self.positions@[k] as int].1@,
            ) == aliases_for(self.rows@, k)
        &&& forall|k: Seq<char>|
            #![trigger aliases_for(self.rows@, k)]
            !self.positions@.contains_key(k) ==> aliases_for(self.rows@, k) == Seq::<Seq<char>>::empty()
    }

    /// The aliases of `sheet`, in row order.
    pub fn aliases_of(&self, sheet: &str) -> (r: Vec<String>)
        ensures
            texts(r@) == aliases_for(self.rows(), sheet@),
    {
        proof {
            use_type_invariant(self);
        }
        match self.positions.get(sheet) {
            Some(p) => {
                assert(self.positions@.contains_key(sheet@));
                self.groups[*p].1.clone()
            },
            None => {
                assert(aliases_for(self.rows@, sheet@) == Seq::<Seq<char>>::empty());
                Vec::new()
            },
        }
    }
}

proof fn lemma_aliases_step(rows: Seq<(Seq<char>, Seq<char>)>, i: int, k: Seq<char>)
    requires
        0 <= i < rows.len(),
    ensures
        aliases_for(rows.take(i + 1), k) == (if rows[i].1 == k {
            aliases_for(rows.take(i), k).push(rows[i].0)
        } else {
            aliases_for(rows.take(i), k)
        }),
{
    assert(rows.take(i + 1).drop_last() =~= rows.take(i));
}

/// Groups the rows `(alias, sheet)` of the alias table by sheet name.
pub fn group_sheet_aliases(rows: &[(String, String)]) -> (r: AliasIndex)
    ensures
        r.rows() == pair_texts(rows@),
{
    let ghost pr = pair_texts(rows@);
    let mut positions: StringHashMap<usize> = StringHashMap::new();
    let mut groups: Vec<(String, Vec<String>)> = Vec::new();
    let mut i: usize = 0;
    assert(pr.take(0) =~= Seq::<(Seq<char>, Seq<char>)>::empty());
    while i < rows.len()
        invariant
            i <= rows@.len(),
            pr == pair_texts(rows@),
            forall|k: Seq<char>|
                #![trigger positions@.contains_key(k)]
                positions@.contains_key(k) ==> positions@[k] < groups@.len() && texts(
                    groups@[positions@[k] as int].1@,
                ) == aliases_for(pr.take(i as int), k) && groups@[positions@[k] as int].0@ == k,
            forall|k: Seq<char>|
                #![trigger aliases_for(pr.take(i as int), k)]
                !positions@.contains_key(k) ==> aliases_for(pr.take(i as int), k) == Seq::<Seq<char>>::empty(),
        decreases rows@.len() - i,
    {
        let alias = &rows[i].0;
        let sheet = &rows[i].1;
        assert(pr[i as int] == (alias@, sheet@));
        proof {
            assert forall|k: Seq<char>| #[trigger] aliases_for(pr.take(i + 1), k) == (if sheet@ == k {
                aliases_for(pr.take(i as int), k).push(alias@)
            } else {
                aliases_for(pr.take(i as int), k)
            }) by {
                lemma_aliases_step(pr, i as int, k);
            }
        }
        match positions.get(sheet.as_str()) {
            Some(p) => {
                let p = *p;
                let ghost old_groups = groups@;
                let ghost g0 = texts(groups@[p as int].1@);
                assert(groups@[p as int].0@ == sheet@);
                groups[p].1.push(alias.clone());
                assert(texts(groups@[p as int].1@) =~= g0.push(alias@));
                assert forall|k: Seq<char>| #![trigger positions@.contains_key(k)]
                    positions@.contains_key(k) implies positions@[k] < groups@.len() && texts(
                    groups@[positions@[k] as int].1@,
                ) == aliases_for(pr.take(i + 1), k) && groups@[positions@[k] as int].0@ == k by {
                    assert(aliases_for(pr.take(i + 1), k) == (if sheet@ == k {
                        aliases_for(pr.take(i as int), k).push(alias@)
                    } else {
                        aliases_for(pr.take(i as int), k)
                    }));
                    if positions@[k] != p {
                        assert(groups@[positions@[k] as int] == old_groups[positions@[k] as int]);
                    }
                }
            },
            None => {
                let n = groups.len();
                let ghost old_groups = groups@;
                let mut g: Vec<String> = Vec::new();
                g.push(alias.clone());
                groups.push((sheet.clone(), g));
                positions.insert(sheet.clone(), n);
                assert(texts(groups@[n as int].1@) =~= seq![alias@]);
                assert(aliases_for(pr.take(i as int), sheet@) == Seq::<Seq<char>>::empty());
                assert forall|k: Seq<char>| #![trigger positions@.contains_key(k)]
                    positions@.contains_key(k) implies positions@[k] < groups@.len() && texts(
                    groups@[positions@[k] as int].1@,
                ) == aliases_for(pr.take(i + 1), k) && groups@[positions@[k] as int].0@ == k by {
                    assert(aliases_for(pr.take(i + 1), k) == (if sheet@ == k {
                        aliases_for(pr.take(i as int), k).push(alias@)
                    } else {
                        aliases_for(pr.take(i as int), k)
                    }));
                    if sheet@ == k {
                        assert(seq![alias@] =~= Seq::<Seq<char>>::empty().push(alias@));
                    } else {
                        assert(groups@[positions@[k] as int] == old_groups[positions@[k] as int]);
                    }
                }
            },
        }
        assert forall|k: Seq<char>| #![trigger aliases_for(pr.take(i + 1), k)]
            !positions@.contains_key(k) implies aliases_for(pr.take(i + 1), k) == Seq::<Seq<char>>::empty() by {
            assert(aliases_for(pr.take(i as int), k) == Seq::<Seq<char>>::empty());
        }
        i = i + 1;
    }
    assert(pr.take(i as int) =~= pr);
    AliasIndex { positions, groups, rows: Ghost(pr) }
}

} // verus!

verus! {

#[verifier::external_type_specification]
#[verifier::external_body]
#[verifier::reject_recursive_types(K)]
#[verifier::reject_recursive_types(V)]
#[verifier::reject_recursive_types(S)]
pub struct ExIndexMap<K, V, S>(indexmap::IndexMap<K, V, S>);

/// The entries of an insertion-ordered map from file paths to positions, in
/// insertion order.
pub uninterp spec fn path_entries(m: IndexMap<String, usize>) -> Seq<(Seq<char>, usize)>;

/// The index of the entry with key `k`.
pub open spec fn entry_pos(es: Seq<(Seq<char>, usize)>, k: Seq<char>) -> Option<int>
    decreases es.len(),
{
    if es.len() == 0 {
        None
    } else {
        match entry_pos(es.drop_last(), k) {
            Some(i) => Some(i),
            None => if es.last().0 == k {
                Some(es.len() - 1)
            } else {
                None
            },
        }
    }
}

/// `IndexMap::new`: an empty map.
#[verifier::external_body]
fn path_index_new() -> (r: IndexMap<String, usize>)
    ensures
        path_entries(r) == Seq::<(Seq<char>, usize)>::empty(),
{
    IndexMap::new()
}

/// `IndexMap::get`: the value of the entry whose key equals `k`.
#[verifier::external_body]
fn path_index_get(m: &IndexMap<String, usize>, k: &str) -> (r: Option<usize>)
    ensures
        match entry_pos(path_entries(*m), k@) {
            Some(i) => r == Some(path_entries(*m)[i].1),
            None => r is None,
        },
{
    m.get(k).copied()
}

/// `IndexMap::insert`: a new key goes last in order; an existing key keeps
/// its place and takes the new value.
#[verifier::external_body]
fn path_index_insert(m: &mut IndexMap<String, usize>, k: String, v: usize)
    ensures
        match entry_pos(path_entries(*old(m)), k@) {
            Some(i) => path_entries(*final(m)) == path_entries(*old(m)).update(i, (k@, v)),
            None => path_entries(*final(m)) == path_entries(*old(m)).push((k@, v)),
        },
{
    m.insert(k, v);
}

} // verus!

verus! {

pub type RowView = (Seq<char>, Seq<char>, Option<Seq<char>>);

pub open spec fn row_of(r: (String, String, Option<String>)) -> RowView {
    (r.0@, r.1@, match r.2 {
        Some(s) => Some(s@),
        None => None,
    })
}

pub open spec fn rows_of(v: Seq<(String, String, Option<String>)>) -> Seq<RowView> {
    v.map_values(|r: (String, String, Option<String>)| row_of(r))
}

/// Some row has file path `p`.
pub open spec fn path_seen(rows: Seq<RowView>, p: Seq<char>) -> bool {
    exists|j: int| 0 <= j < rows.len() && (#[trigger] rows[j]).1 == p
}

/// The file paths of the rows, each once, in order of first appearance.
pub open spec fn paths_in_order(rows: Seq<RowView>) -> Seq<Seq<char>>
    decreases rows.len(),
{
    if rows.len() == 0 {
        seq![]
    } else {
        let r = paths_in_order(rows.drop_last());
        if path_seen(rows.drop_last(), rows.last().1) {
            r
        } else {
            r.push(rows.last().1)
        }
    }
}

/// The sheet names of the rows of file `p`, in row order.
pub open spec fn names_of(rows: Seq<RowView>, p: Seq<char>) -> Seq<Seq<char>>
    decreases rows.len(),
{
    if rows.len() == 0 {
        seq![]
    } else {
        let r = names_of(rows.drop_last(), p);
        match rows.last().2 {
            Some(n) => if rows.last().1 == p {
                r.push(n)
            } else {
                r
            },
            None => r,
        }
    }
}

/// The file name on the first row of file `p`.
pub open spec fn filename_of(rows: Seq<RowView>, p: Seq<char>) -> Seq<char>
    decreases rows.len(),
{
    if rows.len() == 0 {
        seq![]
    } else if path_seen(rows.drop_last(), p) {
        filename_of(rows.drop_last(), p)
    } else if rows.last().1 == p {
        rows.last().0
    } else {
        seq![]
    }
}

pub struct SearchResultView {
    pub filename: Seq<char>,
    pub filepath: Seq<char>,
    pub sheet_names: Seq<Seq<char>>,
    pub sheet_count: nat,
    pub sheet_names_display: Seq<char>,
    pub sheet_aliases: Seq<(Seq<char>, Seq<Seq<char>>)>,
}

pub open spec fn result_view(r: SearchResult) -> SearchResultView {
    SearchResultView {
        filename: r.filename@,
        filepath: r.filepath@,
        sheet_names: texts(r.sheet_names@),
        sheet_count: r.sheet_count as nat,
        sheet_names_display: r.sheet_names_display@,
        sheet_aliases: r.sheet_aliases@.map_values(
            |a: (String, Vec<String>)| (a.0@, texts(a.1@)),
        ),
    }
}

pub open spec fn results_view(v: Seq<SearchResult>) -> Seq<SearchResultView> {
    v.map_values(|r: SearchResult| result_view(r))
}

/// The result of file `p`: its file name, its sheet names with their count,
/// the names joined with `", "`, and the aliases of each name.
pub open spec fn result_for(
    rows: Seq<RowView>,
    alias_rows: Seq<(Seq<char>, Seq<char>)>,
    p: Seq<char>,
) -> SearchResultView {
    let names = names_of(rows, p);
    SearchResultView {
        filename: filename_of(rows, p),
        filepath: p,
        sheet_names: names,
        sheet_count: names.len(),
        sheet_names_display: join(names, ", "@),
        sheet_aliases: names.map_values(|n: Seq<char>| (n, aliases_for(alias_rows, n))),
    }
}

/// One result per file, in order of first appearance.
pub open spec fn search_results_spec(
    rows: Seq<RowView>,
    alias_rows: Seq<(Seq<char>, Seq<char>)>,
) -> Seq<SearchResultView> {
    paths_in_order(rows).map_values(|p: Seq<char>| result_for(rows, alias_rows, p))
}

pub open spec fn sum_counts(rs: Seq<SearchResultView>) -> int
    decreases rs.len(),
{
    if rs.len() == 0 {
        0
    } else {
        sum_counts(rs.drop_last()) + rs.last().sheet_count
    }
}

pub open spec fn total_len(s: Seq<Seq<Seq<char>>>) -> int
    decreases s.len(),
{
    if s.len() == 0 {
        0
    } else {
        total_len(s.drop_last()) + s.last().len()
    }
}

proof fn lemma_total_len_update(s: Seq<Seq<Seq<char>>>, j: int, x: Seq<char>)
    requires
        0 <= j < s.len(),
    ensures
        total_len(s.update(j, s[j].push(x))) == total_len(s) + 1,
    decreases s.len(),
{
    if j == s.len() - 1 {
        assert(s.update(j, s[j].push(x)).drop_last() =~= s.drop_last());
    } else {
        lemma_total_len_update(s.drop_last(), j, x);
        assert(s.update(j, s[j].push(x)).drop_last() =~= s.drop_last().update(j, s.drop_last()[j].push(x)));
    }
}

pub open spec fn lists_view(v: Seq<Vec<String>>) -> Seq<Seq<Seq<char>>> {
    v.map_values(|n: Vec<String>| texts(n@))
}

proof fn lemma_seen_step(rows: Seq<RowView>, i: int, p: Seq<char>)
    requires
        0 <= i < rows.len(),
    ensures
        path_seen(rows.take(i + 1), p) == (path_seen(rows.take(i), p) || rows[i].1 == p),
{
    if path_seen(rows.take(i + 1), p) {
        let j = choose|j: int| 0 <= j < rows.take(i + 1).len() && (#[trigger] rows.take(i + 1)[j]).1 == p;
        if j < i {
            assert(rows.take(i)[j] == rows[j]);
        }
    }
    if path_seen(rows.take(i), p) {
        let j = choose|j: int| 0 <= j < rows.take(i).len() && (#[trigger] rows.take(i)[j]).1 == p;
        assert(rows.take(i + 1)[j] == rows[j]);
    }
    if rows[i].1 == p {
        assert(rows.take(i + 1)[i] == rows[i]);
    }
}

/// Each path of `paths` is seen, at its own position only.
pub open spec fn paths_index_ok(es: Seq<(Seq<char>, usize)>, paths: Seq<Seq<char>>) -> bool {
    &&& es.len() == paths.len()
    &&& forall|j: int| 0 <= j < es.len() ==> (#[trigger] es[j]) == (paths[j], j as usize)
}

proof fn lemma_entry_pos(es: Seq<(Seq<char>, usize)>, paths: Seq<Seq<char>>, k: Seq<char>)
    requires
        paths_index_ok(es, paths),
        forall|a: int, b: int| 0 <= a < b < paths.len() ==> paths[a] != paths[b],
    ensures
        match entry_pos(es, k) {
            Some(i) => 0 <= i < paths.len() && paths[i] == k && es[i] == (k, i as usize),
            None => forall|j: int| 0 <= j < paths.len() ==> paths[j] != k,
        },
    decreases es.len(),
{
    if es.len() > 0 {
        let n = es.len() - 1;
        let d = paths.drop_last();
        assert forall|j: int| 0 <= j < es.drop_last().len() implies (#[trigger] es.drop_last()[j]) == (d[j], j as usize) by {
            assert(es.drop_last()[j] == es[j]);
        }
        assert forall|a: int, b: int| 0 <= a < b < d.len() implies d[a] != d[b] by {
            assert(d[a] == paths[a] && d[b] == paths[b]);
        }
        lemma_entry_pos(es.drop_last(), d, k);
        assert(es[n] == (paths[n], n as usize));
        match entry_pos(es.drop_last(), k) {
            Some(i) => {
                assert(es.drop_last()[i] == es[i]);
            },
            None => {
                assert forall|j: int| 0 <= j < paths.len() - 1 implies paths[j] != k by {
                    assert(d[j] == paths[j]);
                }
            },
        }
    }
}

pub proof fn lemma_paths_distinct(rows: Seq<RowView>)
    ensures
        forall|a: int, b: int| 0 <= a < b < paths_in_order(rows).len() ==> paths_in_order(rows)[a] != paths_in_order(rows)[b],
        forall|p: Seq<char>| path_seen(rows, p) <==> paths_in_order(rows).contains(p),
    decreases rows.len(),
{
    if rows.len() > 0 {
        lemma_paths_distinct(rows.drop_last());
        let r = paths_in_order(rows.drop_last());
        assert(rows.drop_last() =~= rows.take(rows.len() - 1));
        assert forall|p: Seq<char>| path_seen(rows, p) <==> paths_in_order(rows).contains(p) by {
            lemma_seen_step(rows, rows.len() - 1, p);
            assert(rows.take(rows.len() as int) =~= rows);
            if !path_seen(rows.drop_last(), rows.last().1) {
                assert(paths_in_order(rows) =~= r.push(rows.last().1));
                if r.push(rows.last().1).contains(p) {
                    let k = choose|k: int| 0 <= k < r.push(rows.last().1).len() && r.push(rows.last().1)[k] == p;
                    if k < r.len() {
                        assert(r.contains(p));
                    }
                }
                if r.contains(p) {
                    let k = choose|k: int| 0 <= k < r.len() && r[k] == p;
                    assert(r.push(rows.last().1)[k] == p);
                }
                assert(r.push(rows.last().1)[r.len() as int] == rows.last().1);
            }
        }
        if !path_seen(rows.drop_last(), rows.last().1) {
            assert(!r.contains(rows.last().1));
        }
    }
}

} // verus!

verus! {

/// How many rows name a sheet.
pub open spec fn named_rows(rows: Seq<RowView>) -> int
    decreases rows.len(),
{
    if rows.len() == 0 {
        0
    } else {
        named_rows(rows.drop_last()) + if rows.last().2 is Some {
            1int
        } else {
            0
        }
    }
}

pub open spec fn search_response_ok(
    r: SearchResponse,
    rows: Seq<RowView>,
    alias_rows: Seq<(Seq<char>, Seq<char>)>,
) -> bool {
    &&& results_view(r.results@) == search_results_spec(rows, alias_rows)
    &&& r.total_files == r.results@.len()
    &&& r.total_sheets == sum_counts(results_view(r.results@))
    &&& r.total_sheets == named_rows(rows)
}

fn aliases_of_names(names: &Vec<String>, aliases: &AliasIndex) -> (r: Vec<(String, Vec<String>)>)
    ensures
        r@.map_values(|a: (String, Vec<String>)| (a.0@, texts(a.1@))) == texts(names@).map_values(
            |n: Seq<char>| (n, aliases_for(aliases.rows(), n)),
        ),
{
    let ghost target = texts(names@).map_values(|n: Seq<char>| (n, aliases_for(aliases.rows(), n)));
    let mut out: Vec<(String, Vec<String>)> = Vec::new();
    let mut i: usize = 0;
    while i < names.len()
        invariant
            i <= names@.len(),
            target == texts(names@).map_values(|n: Seq<char>| (n, aliases_for(aliases.rows(), n))),
            out@.map_values(|a: (String, Vec<String>)| (a.0@, texts(a.1@))) == target.take(i as int),
        decreases names@.len() - i,
    {
        let ghost before = out@.map_values(|a: (String, Vec<String>)| (a.0@, texts(a.1@)));
        let a = aliases.aliases_of(names[i].as_str());
        let n = names[i].clone();
        let ghost item = (n@, texts(a@));
        out.push((n, a));
        assert(out@.map_values(|a: (String, Vec<String>)| (a.0@, texts(a.1@))) =~= before.push(item));
        assert(target.take(i + 1) =~= target.take(i as int).push(target[i as int]));
        i = i + 1;
    }
    assert(target.take(i as int) =~= target);
    out
}

/// Groups the search rows `(file name, file path, sheet name)` by file, in
/// order of first appearance, and gives each sheet name its aliases.
pub fn group_search_rows(rows: &Vec<(String, String, Option<String>)>, aliases: &AliasIndex) -> (r: SearchResponse)
    ensures
        search_response_ok(r, rows_of(rows@), aliases.rows()),
{
    let ghost rv = rows_of(rows@);
    let mut index = path_index_new();
    let mut heads: Vec<(String, String)> = Vec::new();
    let mut names: Vec<Vec<String>> = Vec::new();
    let mut some: usize = 0;
    let mut i: usize = 0;
    assert(rv.take(0) =~= Seq::<RowView>::empty());
    assert(lists_view(names@) =~= Seq::<Seq<Seq<char>>>::empty());
    while i < rows.len()
        invariant
            i <= rows@.len(),
            rv == rows_of(rows@),
            paths_index_ok(path_entries(index), paths_in_order(rv.take(i as int))),
            heads@.len() == names@.len() == paths_in_order(rv.take(i as int)).len(),
            forall|j: int| 0 <= j < heads@.len() ==> (#[trigger] heads@[j]).1@ == paths_in_order(rv.take(i as int))[j]
                && heads@[j].0@ == filename_of(rv.take(i as int), paths_in_order(rv.take(i as int))[j]),
            forall|j: int| 0 <= j < names@.len() ==> #[trigger] lists_view(names@)[j] == names_of(rv.take(i as int), paths_in_order(rv.take(i as int))[j]),
            some == total_len(lists_view(names@)),
            some == named_rows(rv.take(i as int)),
            some <= i,
        decreases rows@.len() - i,
    {
        let ghost pre = rv.take(i as int);
        let ghost post = rv.take(i + 1);
        let ghost paths = paths_in_order(pre);
        let ghost row = rv[i as int];
        assert(post.drop_last() =~= pre);
        assert(post.last() == row);
        assert(row == row_of(rows@[i as int]));
        proof {
            lemma_paths_distinct(pre);
            lemma_entry_pos(path_entries(index), paths, row.1);
        }
        let fname = &rows[i].0;
        let path = &rows[i].1;
        let sheet = &rows[i].2;
        match path_index_get(&index, path.as_str()) {
            Some(p) => {
                let ghost pi = entry_pos(path_entries(index), row.1).unwrap();
                let hl = heads.len();
                assert(0 <= pi < heads@.len());
                assert(pi == p as int);
                assert(path_seen(pre, row.1));
                assert(paths_in_order(post) == paths);
                let ghost old_names = names@;
                match sheet {
                    Some(n) => {
                        let c = n.clone();
                        names[p].push(c);
                        some = some + 1;
                        assert(names@[p as int]@ =~= old_names[p as int]@.push(c));
                        assert(texts(names@[p as int]@) =~= texts(old_names[p as int]@).push(n@));
                        proof {
                            assert(lists_view(names@) =~= lists_view(old_names).update(p as int, lists_view(old_names)[p as int].push(n@)));
                            lemma_total_len_update(lists_view(old_names), p as int, n@);
                        }
                    },
                    None => {},
                }
                assert forall|j: int| 0 <= j < names@.len() implies #[trigger] lists_view(names@)[j] == names_of(post, paths[j]) by {
                    if j != p {
                        assert(names@[j] == old_names[j]);
                        assert(paths[j] != row.1);
                    }
                }
                assert forall|j: int| 0 <= j < heads@.len() implies (#[trigger] heads@[j]).1@ == paths[j]
                    && heads@[j].0@ == filename_of(post, paths[j]) by {
                    assert(paths.contains(paths[j]));
                    assert(path_seen(pre, paths[j]));
                }
            },
            None => {
                assert(!paths.contains(row.1));
                assert(!path_seen(pre, row.1));
                assert(paths_in_order(post) == paths.push(row.1));
                let ghost old_names = names@;
                let n0 = heads.len();
                heads.push((fname.clone(), path.clone()));
                let mut list: Vec<String> = Vec::new();
                match sheet {
                    Some(n) => {
                        list.push(n.clone());
                        some = some + 1;
                    },
                    None => {},
                }
                names.push(list);
                path_index_insert(&mut index, path.clone(), n0);
                proof {
                    assert(lists_view(names@).drop_last() =~= lists_view(old_names));
                    assert(names_of(pre, row.1) =~= Seq::<Seq<char>>::empty()) by {
                        lemma_names_unseen(pre, row.1);
                    }
                    assert(names_of(post, row.1) == (match row.2 {
                        Some(nn) => names_of(pre, row.1).push(nn),
                        None => names_of(pre, row.1),
                    }));
                    assert(names@[n0 as int] == list);
                    assert(lists_view(names@)[n0 as int] =~= names_of(post, row.1));
                }
                assert forall|j: int| 0 <= j < names@.len() implies #[trigger] lists_view(names@)[j] == names_of(post, paths_in_order(post)[j]) by {
                    if j < n0 {
                        assert(names@[j] == old_names[j]);
                        assert(paths[j] != row.1);
                        assert(paths_in_order(post)[j] == paths[j]);
                        assert(lists_view(old_names)[j] == names_of(pre, paths[j]));
                        assert(names_of(post, paths[j]) == names_of(pre, paths[j]));
                    } else {
                        assert(paths_in_order(post)[j] == row.1);
                    }
                }
                assert forall|j: int| 0 <= j < heads@.len() implies (#[trigger] heads@[j]).1@ == paths_in_order(post)[j]
                    && heads@[j].0@ == filename_of(post, paths_in_order(post)[j]) by {
                    if j < n0 {
                        assert(paths_in_order(post)[j] == paths[j]);
                        assert(paths.contains(paths[j]));
                        assert(path_seen(pre, paths[j]));
                    }
                }
                assert forall|j: int| 0 <= j < path_entries(index).len() implies (#[trigger] path_entries(index)[j]) == (paths_in_order(post)[j], j as usize) by {
                    if j < n0 {
                        assert(paths_in_order(post)[j] == paths[j]);
                    }
                }
            },
        }
        i = i + 1;
    }
    let ghost all = rv.take(i as int);
    assert(all =~= rv);
    assert(some == named_rows(rv));
    let ghost paths = paths_in_order(rv);
    let ghost lv = lists_view(names@);
    let ghost spec_results = search_results_spec(rv, aliases.rows());
    let mut results: Vec<SearchResult> = Vec::new();
    let mut j: usize = 0;
    while j < heads.len()
        invariant
            j <= heads@.len() == names@.len() == paths.len(),
            paths == paths_in_order(rv),
            lv == lists_view(names@),
            spec_results == search_results_spec(rv, aliases.rows()),
            forall|k: int| 0 <= k < heads@.len() ==> (#[trigger] heads@[k]).1@ == paths[k]
                && heads@[k].0@ == filename_of(rv, paths[k]),
            forall|k: int| 0 <= k < names@.len() ==> #[trigger] lv[k] == names_of(rv, paths[k]),
            results_view(results@) == spec_results.take(j as int),
            sum_counts(results_view(results@)) == total_len(lv.take(j as int)),
        decreases heads@.len() - j,
    {
        let list = names[j].clone();
        let count = list.len();
        let display = join_strings(&list, ", ");
        let sheet_aliases = aliases_of_names(&list, aliases);
        let ghost before = results_view(results@);
        let r = SearchResult {
            filename: heads[j].0.clone(),
            filepath: heads[j].1.clone(),
            sheet_names: list,
            sheet_count: count,
            sheet_names_display: display,
            sheet_aliases,
        };
        assert(lv[j as int] == names_of(rv, paths[j as int]));
        assert(result_view(r) == result_for(rv, aliases.rows(), paths[j as int]));
        results.push(r);
        assert(results_view(results@) =~= before.push(result_view(r)));
        assert(spec_results.take(j + 1) =~= spec_results.take(j as int).push(spec_results[j as int]));
        assert(lv.take(j + 1).drop_last() =~= lv.take(j as int));
        assert(results_view(results@).drop_last() =~= before);
        j = j + 1;
    }
    assert(spec_results.take(j as int) =~= spec_results);
    assert(lv.take(j as int) =~= lv);
    let total_files = results.len();
    SearchResponse { results, total_files, total_sheets: some }
}

proof fn lemma_names_unseen(rows: Seq<RowView>, p: Seq<char>)
    requires
        !path_seen(rows, p),
    ensures
        names_of(rows, p) == Seq::<Seq<char>>::empty(),
    decreases rows.len(),
{
    if rows.len() > 0 {
        assert(!path_seen(rows.drop_last(), p)) by {
            if path_seen(rows.drop_last(), p) {
                let j = choose|j: int| 0 <= j < rows.drop_last().len() && (#[trigger] rows.drop_last()[j]).1 == p;
                assert(rows[j] == rows.drop_last()[j]);
            }
        }
        lemma_names_unseen(rows.drop_last(), p);
        assert(rows[rows.len() - 1].1 != p);
    }
}

} // verus!

verus! {

/// A CSV field: the text in double quotes, its own quotes doubled.
pub open spec fn csv_field(s: Seq<char>) -> Seq<char> {
    seq!['"'] + double_quotes(s) + seq!['"']
}

/// One CSV line: file name, sheet name, aliases, file path and the number
/// of matching sheets.
pub open spec fn csv_line(
    filename: Seq<char>,
    sheet: Seq<char>,
    aliases: Seq<char>,
    filepath: Seq<char>,
    count: nat,
) -> Seq<char> {
    csv_field(filename) + seq![','] + csv_field(sheet) + seq![','] + csv_field(aliases) + seq![',']
        + csv_field(filepath) + seq![','] + decimal(count) + seq!['\n']
}

/// The aliases stored for `sheet` in a result (the first entry with that
/// name), none where it has no entry.
pub open spec fn lookup_aliases(pairs: Seq<(Seq<char>, Seq<Seq<char>>)>, sheet: Seq<char>) -> Seq<Seq<char>>
    decreases pairs.len(),
{
    if pairs.len() == 0 {
        seq![]
    } else if pairs[0].0 == sheet {
        pairs[0].1
    } else {
        lookup_aliases(pairs.drop_first(), sheet)
    }
}

/// The lines of one result: one per sheet with its aliases joined by
/// `"; "`, or a single line with empty sheet and aliases where it has no sheet.
pub open spec fn result_lines(r: SearchResultView) -> Seq<char> {
    if r.sheet_names.len() == 0 {
        csv_line(r.filename, seq![], seq![], r.filepath, r.sheet_count)
    } else {
        sheet_lines(r, r.sheet_names.len() as int)
    }
}

/// The lines of the first `n` sheets of a result.
pub open spec fn sheet_lines(r: SearchResultView, n: int) -> Seq<char>
    decreases n,
{
    if n <= 0 {
        seq![]
    } else {
        sheet_lines(r, n - 1) + csv_line(
            r.filename,
            r.sheet_names[n - 1],
            join(lookup_aliases(r.sheet_aliases, r.sheet_names[n - 1]), "; "@),
            r.filepath,
            r.sheet_count,
        )
    }
}

pub open spec fn csv_body(rs: Seq<SearchResultView>) -> Seq<char>
    decreases rs.len(),
{
    if rs.len() == 0 {
        seq![]
    } else {
        csv_body(rs.drop_last()) + result_lines(rs.last())
    }
}

pub open spec fn csv_header() -> Seq<char> {
    "\u{feff}文件名,子表名称,别名,文件路径,命中子表数\n"@
}

fn push_field(out: &mut String, s: &str)
    ensures
        final(out)@ == old(out)@ + csv_field(s@),
{
    push_char(out, '"');
    out.append(double_quoted(s).as_str());
    push_char(out, '"');
}

fn push_line(out: &mut String, filename: &str, sheet: &str, aliases: &str, filepath: &str, count: usize)
    ensures
        final(out)@ == old(out)@ + csv_line(filename@, sheet@, aliases@, filepath@, count as nat),
{
    push_field(out, filename);
    push_char(out, ',');
    push_field(out, sheet);
    push_char(out, ',');
    push_field(out, aliases);
    push_char(out, ',');
    push_field(out, filepath);
    push_char(out, ',');
    push_decimal(out, count);
    push_char(out, '\n');
    assert(out@ =~= old(out)@ + csv_line(filename@, sheet@, aliases@, filepath@, count as nat));
}

fn lookup_exec(pairs: &Vec<(String, Vec<String>)>, sheet: &str) -> (r: Vec<String>)
    ensures
        texts(r@) == lookup_aliases(
            pairs@.map_values(|a: (String, Vec<String>)| (a.0@, texts(a.1@))),
            sheet@,
        ),
{
    let ghost pv = pairs@.map_values(|a: (String, Vec<String>)| (a.0@, texts(a.1@)));
    let mut i: usize = 0;
    assert(pv.skip(0) =~= pv);
    while i < pairs.len()
        invariant
            i <= pairs@.len(),
            pv == pairs@.map_values(|a: (String, Vec<String>)| (a.0@, texts(a.1@))),
            lookup_aliases(pv, sheet@) == lookup_aliases(pv.skip(i as int), sheet@),
        decreases pairs@.len() - i,
    {
        assert(pv.skip(i as int).drop_first() =~= pv.skip(i + 1));
        assert(pv.skip(i as int)[0] == pv[i as int]);
        if same_text(pairs[i].0.as_str(), sheet) {
            return pairs[i].1.clone();
        }
        i = i + 1;
    }
    Vec::new()
}

/// The CSV export of search results: a byte-order mark and the header, then
/// the lines of each result in order.
pub fn export_csv(results: &Vec<SearchResult>) -> (r: String)
    ensures
        r@ == csv_header() + csv_body(results_view(results@)),
{
    let ghost rv = results_view(results@);
    let mut out = String::new();
    out.append("\u{feff}文件名,子表名称,别名,文件路径,命中子表数\n");
    let ghost e: Seq<char> = seq![];
    assert(e + csv_header() =~= csv_header());
    let mut i: usize = 0;
    while i < results.len()
        invariant
            i <= results@.len(),
            rv == results_view(results@),
            out@ == csv_header() + csv_body(rv.take(i as int)),
        decreases results@.len() - i,
    {
        let r = &results[i];
        let ghost v = result_view(*r);
        assert(rv[i as int] == v);
        assert(rv.take(i + 1).drop_last() =~= rv.take(i as int));
        let ghost start = out@;
        if r.sheet_names.len() == 0 {
            push_line(&mut out, r.filename.as_str(), "", "", r.filepath.as_str(), r.sheet_count);
            assert(""@ =~= Seq::<char>::empty()) by {
                reveal_strlit("");
            }
        } else {
            let mut k: usize = 0;
            while k < r.sheet_names.len()
                invariant
                    k <= r.sheet_names@.len(),
                    v == result_view(*r),
                    out@ == start + sheet_lines(v, k as int),
                decreases r.sheet_names@.len() - k,
            {
                let names = lookup_exec(&r.sheet_aliases, r.sheet_names[k].as_str());
                let joined = join_strings(&names, "; ");
                push_line(&mut out, r.filename.as_str(), r.sheet_names[k].as_str(), joined.as_str(), r.filepath.as_str(), r.sheet_count);
                assert(out@ =~= start + sheet_lines(v, k + 1));
                k = k + 1;
            }
        }
        assert(out@ =~= csv_header() + csv_body(rv.take(i + 1)));
        i = i + 1;
    }
    assert(rv.take(i as int) =~= rv);
    out
}

} // verus!
