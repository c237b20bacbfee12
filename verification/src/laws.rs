//! Properties of the library as a whole, each stated over the models the
//! functions' contracts use and proved from them.
use vstd::prelude::*;
use crate::alias::{
    alias_prefix_len, ascii_token_spec, call_word, cross, dedup_mappings, is_comment_spec, lemma_dedup_members,
    lemma_dedup_step, lemma_same_mapping_equiv, line_mappings, parse_alias_spec, same_mapping, text_mappings,
};
use crate::access::{access_spec, cookie_token, query_token, starts_with, AccessView, WEBVIEW_UA_PREFIX};
use crate::matching::{bytes_eq_ic, cell_matches_spec, contains_ic, MatchMode};
use crate::bytes::{find_seq, lemma_find_seq, lemma_next_byte, next_byte};
use crate::sheet_scan::{
    cells_from, close_c_from, key_r, lemma_close_c_from, lemma_scan_to, row_close_tag, row_number, row_open, rows_from,
    scan_spec, scan_to, Flow, SinkModel,
};
use crate::sheet_xml::{attr_spec, cell_value_spec, col_ref_spec, is_alpha, kind_spec, ColRef};
use crate::preview::{
    empties, sheet_preview_spec, HitModel, WindowModel,
    cut_row, first_of, grid_hits, grid_preview_spec, lemma_trim_row_prefix, max1, row_hits, sat_sub, sat_add, top_row, pad_row, pad_rows, header_cell, window_cell,
    window_rows, window_spec, first_hits, trim_row_spec, trim_rows,
};
use crate::cell_stream::{
    cell_hits, flat_cells, grid_cells, has_cell, header_ok, lemma_flat_cells_above, lemma_flat_cells_append,
    lemma_grid_hits_cells, lemma_window_feed_rows, lemma_lookup_absent, window_ok,
    lemma_lookup_other_rows, lemma_scan_feed_sound, lemma_scan_hits, lemma_trim_padded, lookup, rows_ascending,
    sheet_rows, feed_rows, data_ok, in_window, lemma_grid_cells_inside, lemma_lookup_grid,
};
use crate::text::{
    decimal, digit_char, eq_ic, first_index, is_ws, lemma_first_index, lemma_first_index_is, lemma_word_len, split_ws, trim, trim_end, trim_start,
    word_len,
};
use crate::indexing::{batch_ops, count_indexed, indexed_id, own_sheets, sheet_names_of, update_ops, SheetRow, UpdateView};
use crate::results::{paths_in_order, search_results_spec, RowView};
use crate::types::{HitView, PreviewView};
use crate::workbook::{from_first_digit, char_digits_value, is_ascii_digit, lower_extension, path_extension, rid_index_spec, supported_extension};

verus! {

/// Exact matches are prefix matches, prefix matches are fuzzy matches, and
/// an empty keyword matches nothing.
pub proof fn law_match_modes_nest(v: Seq<char>, k: Seq<char>)
    ensures
        cell_matches_spec(v, k, MatchMode::Exact) ==> cell_matches_spec(v, k, MatchMode::Prefix),
        cell_matches_spec(v, k, MatchMode::Prefix) ==> cell_matches_spec(v, k, MatchMode::Fuzzy),
        k.len() == 0 ==> !cell_matches_spec(v, k, MatchMode::Exact) && !cell_matches_spec(v, k, MatchMode::Prefix)
            && !cell_matches_spec(v, k, MatchMode::Fuzzy),
{
    let vb = vstd::utf8::encode_utf8(v);
    let kb = vstd::utf8::encode_utf8(k);
    if k.len() > 0 && cell_matches_spec(v, k, MatchMode::Exact) {
        assert(vb.take(kb.len() as int) =~= vb);
        vstd::utf8::encode_utf8_valid_utf8(v);
        vstd::utf8::is_char_boundary_start_end_of_seq(vb);
    }
    if k.len() > 0 && cell_matches_spec(v, k, MatchMode::Prefix) {
        assert(vb.subrange(0, 0 + kb.len() as int) =~= vb.take(kb.len() as int));
        assert(bytes_eq_ic(vb.subrange(0, 0 + kb.len() as int), kb));
    }
}

/// The preview opened on a search hit shows that hit: the window starts at
/// most three rows above and two columns left of it, so a window of at
/// least four rows and three columns contains it.
pub proof fn law_first_hit_visible(h: HitView, start_col: Option<usize>, preview_rows: usize, preview_cols: usize)
    requires
        1 <= h.row <= usize::MAX,
        1 <= h.col <= usize::MAX,
        preview_rows >= 4,
        preview_cols >= 3,
    ensures
        ({
            let (wr, wc) = window_spec(Some(h), None, start_col);
            &&& 1 <= wr <= h.row < wr + preview_rows
            &&& 1 <= wc <= h.col < wc + preview_cols
        }),
{
}

/// The number in a relationship id `rId<n>` is `n`, so the sheet path made
/// from it when the relationships part is missing names sheet `n`.
pub proof fn law_rid_round_trip(n: usize)
    ensures
        rid_index_spec("rId"@ + decimal(n as nat)) == n,
{
    reveal_strlit("rId");
    let s = "rId"@ + decimal(n as nat);
    lemma_decimal_digits(n as nat);
    let d = decimal(n as nat);
    assert(!is_ascii_digit(s[0]) && !is_ascii_digit(s[1]) && !is_ascii_digit(s[2]));
    assert(s.drop_first().drop_first().drop_first() =~= d);
    assert(from_first_digit(s) == from_first_digit(s.drop_first()));
    assert(from_first_digit(s.drop_first()) == from_first_digit(s.drop_first().drop_first()));
    assert(from_first_digit(s.drop_first().drop_first()) == from_first_digit(d));
    assert(is_ascii_digit(d[0]));
    assert(from_first_digit(d) == d);
}

/// The decimal digits of `n` are ASCII digits and read back as `n`.
pub proof fn lemma_decimal_digits(n: nat)
    ensures
        decimal(n).len() > 0,
        forall|i: int| 0 <= i < decimal(n).len() ==> is_ascii_digit(#[trigger] decimal(n)[i]),
        char_digits_value(decimal(n)) == n,
    decreases n,
{
    if n < 10 {
        assert(decimal(n).drop_last() =~= Seq::<char>::empty());
        assert(digit_char(n) as int == 48 + n);
        assert(decimal(n).last() == digit_char(n));
        assert(char_digits_value(decimal(n).drop_last()) == 0);
        assert(char_digits_value(decimal(n)) == char_digits_value(decimal(n).drop_last()) * 10 + (decimal(n).last() as int - 48));
    } else {
        lemma_decimal_digits(n / 10);
        let d = decimal(n / 10).push(digit_char(n % 10));
        assert(d.drop_last() =~= decimal(n / 10));
        assert(digit_char(n % 10) as int == 48 + n % 10);
        assert(d.last() == digit_char(n % 10));
        assert((n / 10) * 10 + n % 10 == n) by (nonlinear_arith);
        assert(char_digits_value(d) == char_digits_value(decimal(n / 10)) * 10 + (d.last() as int - 48));
        assert forall|i: int| 0 <= i < d.len() implies is_ascii_digit(#[trigger] d[i]) by {
            if i < d.len() - 1 {
                assert(d[i] == decimal(n / 10)[i]);
            }
        }
    }
}

/// A file previewed from its worksheet XML is a file the index covers.
pub proof fn law_streamed_files_are_supported(path: Seq<char>)
    requires
        lower_extension(path) == "xlsx"@ || lower_extension(path) == "xlsm"@,
    ensures
        path_extension(path) is Some && supported_extension(lower_extension(path)),
{
    reveal_strlit("xlsx");
    reveal_strlit("xlsm");
    if path_extension(path) is None {
        assert(lower_extension(path) == Seq::<char>::empty());
    }
}

} // verus!

verus! {

proof fn lemma_first_index_absent(s: Seq<char>, c: char)
    requires
        forall|i: int| 0 <= i < s.len() ==> s[i] != c,
    ensures
        first_index(s, c) == s.len(),
{
    crate::text::lemma_first_index_is(s, c, s.len());
}

/// The cookie the API sets for a token brings that token back: a request
/// carrying only that cookie is served (where the web interface is on, or
/// the request comes from the desktop window), without setting it again.
/// The token must not contain `;` nor end in whitespace, as the generated
/// tokens never do.
pub proof fn law_token_cookie_accepted(
    path: Seq<char>,
    web_enabled: bool,
    user_agent: Option<Seq<char>>,
    token: Seq<char>,
)
    requires
        forall|i: int| 0 <= i < token.len() ==> token[i] != ';',
        token.len() > 0 ==> !is_ws(token.last()),
        web_enabled || (user_agent matches Some(ua) && starts_with(ua, WEBVIEW_UA_PREFIX@)),
    ensures
        access_spec(
            path,
            web_enabled,
            user_agent,
            None,
            Some("xlsx_token="@ + token + "; Path=/"@),
            token,
        ) == (AccessView::Allow { set_cookie: false }),
{
    reveal_strlit("xlsx_token=");
    reveal_strlit("; Path=/");
    let head = "xlsx_token="@ + token;
    let c = head + "; Path=/"@;
    assert forall|i: int| 0 <= i < head.len() implies head[i] != ';' by {
        if i >= 11 {
            assert(head[i] == token[i - 11]);
        }
    }
    crate::text::lemma_first_index_is(c, ';', head.len());
    assert(c.take(head.len() as int) =~= head);
    assert(trim_start(head) == head);
    assert(head.last() != ';');
    if token.len() > 0 {
        assert(head.last() == token.last());
    }
    assert(trim_end(head) == head);
    assert(trim(head) == head);
    assert(head.take(11) =~= "xlsx_token="@);
    assert(head.skip(11) =~= token);
    assert(cookie_token(c) == Some(token));
}

/// A token given in the query string (`token=<token>`) is accepted, and the
/// answer sets the cookie. The token must not contain `&`.
pub proof fn law_query_token_accepted(
    path: Seq<char>,
    web_enabled: bool,
    user_agent: Option<Seq<char>>,
    cookie: Option<Seq<char>>,
    token: Seq<char>,
)
    requires
        forall|i: int| 0 <= i < token.len() ==> token[i] != '&',
        path != "/api/health"@,
        web_enabled || (user_agent matches Some(ua) && starts_with(ua, WEBVIEW_UA_PREFIX@)),
    ensures
        access_spec(path, web_enabled, user_agent, Some("token="@ + token), cookie, token)
            == (AccessView::Allow { set_cookie: true }),
{
    reveal_strlit("token=");
    reveal_strlit("token");
    let q = "token="@ + token;
    assert forall|i: int| 0 <= i < q.len() implies q[i] != '&' by {
        if i >= 6 {
            assert(q[i] == token[i - 6]);
        }
    }
    lemma_first_index_absent(q, '&');
    assert(q.take(q.len() as int) =~= q);
    assert forall|i: int| 0 <= i < 5 implies q[i] != '=' by {}
    crate::text::lemma_first_index_is(q, '=', 5);
    assert(q.take(5) =~= "token"@);
    assert(q.skip(6) =~= token);
    assert(query_token(q) == Some(token));
}

/// Without a token, in neither the query nor the cookie, only the health
/// check is served.
pub proof fn law_no_token_no_access(
    path: Seq<char>,
    web_enabled: bool,
    user_agent: Option<Seq<char>>,
    token: Seq<char>,
)
    requires
        path != "/api/health"@,
    ensures
        (access_spec(path, web_enabled, user_agent, None, None, token) is Forbidden),
{
}

/// With the web interface off, a browser other than the desktop window is
/// refused, whatever token it brings.
pub proof fn law_web_off_refuses_browsers(
    path: Seq<char>,
    user_agent: Option<Seq<char>>,
    query: Option<Seq<char>>,
    cookie: Option<Seq<char>>,
    token: Seq<char>,
)
    requires
        path != "/api/health"@,
        !(user_agent matches Some(ua) && starts_with(ua, WEBVIEW_UA_PREFIX@)),
    ensures
        access_spec(path, false, user_agent, query, cookie, token) == AccessView::Forbidden("Web 界面已关闭"@),
{
}

} // verus!

verus! {

/// The file of update `u` is indexed with exactly the sheets it still has.
pub open spec fn unchanged_file(u: UpdateView, indexed: Seq<(Seq<char>, i64)>, rows: Seq<SheetRow>) -> bool {
    &&& indexed_id(indexed, u.1) is Some
    &&& own_sheets(rows, indexed_id(indexed, u.1).unwrap()).len() > 0
    &&& sheet_names_of(own_sheets(rows, indexed_id(indexed, u.1).unwrap())) == u.2
}

/// Re-scanning files whose sheets did not change touches no sheet: the
/// plan only refreshes each file's row, and every file counts as updated.
pub proof fn law_rescan_keeps_sheets(
    updates: Seq<UpdateView>,
    indexed: Seq<(Seq<char>, i64)>,
    rows: Seq<SheetRow>,
    n: int,
)
    requires
        0 <= n <= updates.len(),
        n <= usize::MAX,
        forall|k: int| 0 <= k < n ==> unchanged_file(#[trigger] updates[k], indexed, rows),
    ensures
        batch_ops(updates, n, indexed, rows).len() == n,
        forall|i: int| 0 <= i < n ==> (#[trigger] batch_ops(updates, n, indexed, rows)[i]) is UpdateFile,
        count_indexed(updates, n, indexed) == n,
    decreases n,
{
    if n > 0 {
        law_rescan_keeps_sheets(updates, indexed, rows, n - 1);
        let prev = batch_ops(updates, n - 1, indexed, rows);
        let u = updates[n - 1];
        assert(unchanged_file(u, indexed, rows));
        let last = update_ops((n - 1) as usize, u, indexed, rows);
        assert(last.len() == 1);
        assert(last[0] is UpdateFile);
        let all = batch_ops(updates, n, indexed, rows);
        assert(all == prev + last);
        assert forall|i: int| 0 <= i < n implies (#[trigger] batch_ops(updates, n, indexed, rows)[i]) is UpdateFile by {
            if i < n - 1 {
                assert(all[i] == prev[i]);
            } else {
                assert(all[i] == last[0]);
            }
        }
    }
}

/// A search gives one result per file: no two results have the same path,
/// and every file of the rows has a result.
pub proof fn law_one_result_per_file(rows: Seq<RowView>, alias_rows: Seq<(Seq<char>, Seq<char>)>)
    ensures
        forall|i: int, j: int|
            0 <= i < j < search_results_spec(rows, alias_rows).len() ==> (#[trigger] search_results_spec(rows, alias_rows)[i]).filepath
                != (#[trigger] search_results_spec(rows, alias_rows)[j]).filepath,
        forall|r: int| 0 <= r < rows.len() ==> exists|i: int|
            0 <= i < search_results_spec(rows, alias_rows).len() && (#[trigger] search_results_spec(rows, alias_rows)[i]).filepath
                == (#[trigger] rows[r]).1,
{
    crate::results::lemma_paths_distinct(rows);
    let ps = paths_in_order(rows);
    let rs = search_results_spec(rows, alias_rows);
    assert forall|i: int, j: int| 0 <= i < j < rs.len() implies (#[trigger] rs[i]).filepath != (#[trigger] rs[j]).filepath by {
        assert(rs[i].filepath == ps[i]);
        assert(rs[j].filepath == ps[j]);
    }
    assert forall|r: int| 0 <= r < rows.len() implies exists|i: int|
        0 <= i < rs.len() && (#[trigger] rs[i]).filepath == (#[trigger] rows[r]).1 by {
        assert(crate::results::path_seen(rows, rows[r].1));
        assert(ps.contains(rows[r].1));
        let i = choose|i: int| 0 <= i < ps.len() && ps[i] == rows[r].1;
        assert(rs[i].filepath == ps[i]);
    }
}

} // verus!

verus! {

/// A hit names a cell of the grid, 1-based, holds its text, and that text
/// matches the keyword.
pub open spec fn hit_in_grid(h: HitView, g: Seq<Seq<Seq<char>>>, k: Seq<char>, mode: MatchMode) -> bool {
    &&& 1 <= h.row <= g.len()
    &&& 1 <= h.col <= g[h.row - 1].len()
    &&& h.value == g[h.row - 1][h.col - 1]
    &&& cell_matches_spec(h.value, k, mode)
}

proof fn lemma_row_hits(g: Seq<Seq<Seq<char>>>, ri: int, ci: int, k: Seq<char>, mode: MatchMode)
    requires
        0 <= ri < g.len() < i64::MAX,
        forall|i: int| 0 <= i < g.len() ==> (#[trigger] g[i]).len() < i64::MAX,
        0 <= ci,
    ensures
        forall|t: int| 0 <= t < row_hits(g, ri, ci, k, mode).len() ==> hit_in_grid(
            #[trigger] row_hits(g, ri, ci, k, mode)[t],
            g,
            k,
            mode,
        ),
    decreases g[ri].len() - ci,
{
    if ci < g[ri].len() {
        lemma_row_hits(g, ri, ci + 1, k, mode);
        let rest = row_hits(g, ri, ci + 1, k, mode);
        let h = HitView { row: (ri + 1) as i64, col: (ci + 1) as i64, value: g[ri][ci] };
        if cell_matches_spec(g[ri][ci], k, mode) {
            assert(g[ri].len() < i64::MAX);
            assert(hit_in_grid(h, g, k, mode));
            assert forall|t: int| 0 <= t < row_hits(g, ri, ci, k, mode).len() implies hit_in_grid(
                #[trigger] row_hits(g, ri, ci, k, mode)[t],
                g,
                k,
                mode,
            ) by {
                assert(row_hits(g, ri, ci, k, mode) == seq![h] + rest);
                if t > 0 {
                    assert(row_hits(g, ri, ci, k, mode)[t] == rest[t - 1]);
                }
            }
        }
    }
}

proof fn lemma_grid_hits(g: Seq<Seq<Seq<char>>>, ri: int, k: Seq<char>, mode: MatchMode)
    requires
        0 <= ri,
        g.len() < i64::MAX,
        forall|i: int| 0 <= i < g.len() ==> (#[trigger] g[i]).len() < i64::MAX,
    ensures
        forall|t: int| 0 <= t < grid_hits(g, ri, k, mode).len() ==> hit_in_grid(
            #[trigger] grid_hits(g, ri, k, mode)[t],
            g,
            k,
            mode,
        ),
    decreases g.len() - ri,
{
    if ri < g.len() {
        lemma_grid_hits(g, ri + 1, k, mode);
        lemma_row_hits(g, ri, 0, k, mode);
        let a = row_hits(g, ri, 0, k, mode);
        let b = grid_hits(g, ri + 1, k, mode);
        assert forall|t: int| 0 <= t < grid_hits(g, ri, k, mode).len() implies hit_in_grid(
            #[trigger] grid_hits(g, ri, k, mode)[t],
            g,
            k,
            mode,
        ) by {
            assert(grid_hits(g, ri, k, mode) == a + b);
            if t < a.len() {
                assert(grid_hits(g, ri, k, mode)[t] == a[t]);
            } else {
                assert(grid_hits(g, ri, k, mode)[t] == b[t - a.len()]);
            }
        }
    }
}

/// What a grid preview shows: at most `max_hits` hits (at least one), each
/// a cell of the grid whose text matches the keyword; at most `preview_rows`
/// rows of at most `preview_cols` cells; a header of at most `preview_cols`
/// cells.
pub proof fn law_grid_preview_bounds(
    g: Seq<Seq<Seq<char>>>,
    keyword: Option<Seq<char>>,
    mode: MatchMode,
    max_hits: usize,
    preview_rows: usize,
    preview_cols: usize,
    start_row: Option<usize>,
    start_col: Option<usize>,
)
    requires
        g.len() < i64::MAX,
        forall|i: int| 0 <= i < g.len() ==> (#[trigger] g[i]).len() < i64::MAX,
    ensures
        ({
            let p = grid_preview_spec(g, keyword, mode, max_hits, preview_rows, preview_cols, start_row, start_col);
            &&& p.hits.len() <= max1(max_hits)
            &&& forall|i: int| 0 <= i < p.hits.len() ==> keyword is Some && hit_in_grid(#[trigger] p.hits[i], g, keyword.unwrap(), mode)
            &&& p.data.len() <= preview_rows
            &&& forall|i: int| 0 <= i < p.data.len() ==> (#[trigger] p.data[i]).len() <= preview_cols
            &&& p.header_row.len() <= preview_cols
        }),
{
    let p = grid_preview_spec(g, keyword, mode, max_hits, preview_rows, preview_cols, start_row, start_col);
    if let Some(k) = keyword {
        lemma_grid_hits(g, 0, k, mode);
        let all = grid_hits(g, 0, k, mode);
        assert forall|i: int| 0 <= i < p.hits.len() implies keyword is Some && hit_in_grid(#[trigger] p.hits[i], g, k, mode) by {
            assert(p.hits[i] == all[i]);
        }
    }
    let (wr, wc) = window_spec(first_of(p.hits), start_row, start_col);
    let start = sat_sub(wc, 1) as int;
    let rows = window_rows(g, wr, preview_rows);
    assert forall|i: int| 0 <= i < p.data.len() implies (#[trigger] p.data[i]).len() <= preview_cols by {
        let r = rows[i];
        assert(p.data[i] == cut_row(r, start, preview_cols as int));
        if start < r.len() {
            let end = if start + preview_cols < r.len() {
                start + preview_cols
            } else {
                r.len() as int
            };
            lemma_trim_row_prefix(r.subrange(start, end));
        }
    }
    if g.len() > 0 {
        let h = if preview_cols < g[0].len() {
            g[0].take(preview_cols as int)
        } else {
            g[0]
        };
        lemma_trim_row_prefix(h);
    }
}

} // verus!

verus! {

/// A word of an alias line: not empty, without whitespace.
pub open spec fn is_word(t: Seq<char>) -> bool {
    t.len() > 0 && forall|i: int| 0 <= i < t.len() ==> !is_ws(#[trigger] t[i])
}

/// A mapping as the alias file format allows it: the alias a name of ASCII
/// letters, digits and `_`, the sheet name a word.
pub open spec fn good_mapping(m: (Seq<char>, Seq<char>)) -> bool {
    ascii_token_spec(m.0) && is_word(m.1)
}

proof fn lemma_split_ws_words(s: Seq<char>)
    ensures
        forall|i: int| 0 <= i < split_ws(s).len() ==> is_word(#[trigger] split_ws(s)[i]),
    decreases s.len(),
{
    if s.len() > 0 {
        if is_ws(s[0]) {
            lemma_split_ws_words(s.drop_first());
            assert(split_ws(s) == split_ws(s.drop_first()));
        } else {
            let n = word_len(s);
            lemma_word_len(s);
            assert(1 <= n <= s.len());
            if 1 <= n <= s.len() {
                lemma_split_ws_words(s.skip(n as int));
                let w = s.take(n as int);
                assert forall|i: int| 0 <= i < split_ws(s).len() implies is_word(#[trigger] split_ws(s)[i]) by {
                    assert(split_ws(s) == seq![w] + split_ws(s.skip(n as int)));
                    if i == 0 {
                        assert(split_ws(s)[0] == w);
                        assert forall|j: int| 0 <= j < w.len() implies !is_ws(#[trigger] w[j]) by {
                            assert(w[j] == s[j]);
                        }
                    } else {
                        assert(split_ws(s)[i] == split_ws(s.skip(n as int))[i - 1]);
                    }
                }
            }
        }
    }
}

proof fn lemma_alias_prefix(ts: Seq<Seq<char>>)
    ensures
        alias_prefix_len(ts) <= ts.len(),
        forall|i: int| 0 <= i < alias_prefix_len(ts) ==> ascii_token_spec(#[trigger] ts[i]),
    decreases ts.len(),
{
    if ts.len() > 0 && ascii_token_spec(ts[0]) {
        lemma_alias_prefix(ts.drop_first());
        assert forall|i: int| 0 <= i < alias_prefix_len(ts) implies ascii_token_spec(#[trigger] ts[i]) by {
            if i > 0 {
                assert(ts[i] == ts.drop_first()[i - 1]);
            }
        }
    }
}

proof fn lemma_cross_good(aliases: Seq<Seq<char>>, sheets: Seq<Seq<char>>)
    requires
        forall|i: int| 0 <= i < aliases.len() ==> ascii_token_spec(#[trigger] aliases[i]),
        forall|i: int| 0 <= i < sheets.len() ==> is_word(#[trigger] sheets[i]),
    ensures
        forall|i: int| 0 <= i < cross(aliases, sheets).len() ==> good_mapping(#[trigger] cross(aliases, sheets)[i]),
    decreases aliases.len(),
{
    if aliases.len() > 0 {
        assert forall|i: int| 0 <= i < aliases.drop_first().len() implies ascii_token_spec(#[trigger] aliases.drop_first()[i]) by {
            assert(aliases.drop_first()[i] == aliases[i + 1]);
        }
        lemma_cross_good(aliases.drop_first(), sheets);
        let a = sheets.map_values(|s: Seq<char>| (aliases[0], s));
        let b = cross(aliases.drop_first(), sheets);
        assert(ascii_token_spec(aliases[0]));
        assert forall|i: int| 0 <= i < cross(aliases, sheets).len() implies good_mapping(#[trigger] cross(aliases, sheets)[i]) by {
            assert(cross(aliases, sheets) == a + b);
            if i < a.len() {
                assert(cross(aliases, sheets)[i] == a[i]);
                assert(a[i] == (aliases[0], sheets[i]));
            } else {
                assert(cross(aliases, sheets)[i] == b[i - a.len()]);
            }
        }
    }
}

proof fn lemma_line_good(raw: Seq<char>)
    ensures
        forall|i: int| 0 <= i < line_mappings(raw).len() ==> good_mapping(#[trigger] line_mappings(raw)[i]),
{
    let line = trim(raw);
    let tokens = split_ws(line);
    lemma_split_ws_words(line);
    if !(line.len() == 0 || is_comment_spec(line)) && tokens.len() >= 2 {
        if eq_ic(tokens[0], call_word()) && tokens.len() >= 3 {
            let payload = tokens.skip(2);
            let k = alias_prefix_len(payload);
            lemma_alias_prefix(payload);
            if !(k == 0 || k >= payload.len()) {
                let al = payload.take(k as int);
                let sh = payload.skip(k as int);
                assert forall|i: int| 0 <= i < al.len() implies ascii_token_spec(#[trigger] al[i]) by {
                    assert(al[i] == payload[i]);
                }
                assert forall|i: int| 0 <= i < sh.len() implies is_word(#[trigger] sh[i]) by {
                    assert(sh[i] == tokens[i + k + 2]);
                }
                lemma_cross_good(al, sh);
            }
        } else {
            if ascii_token_spec(tokens[0]) {
                let ms = tokens.skip(1).map_values(|s: Seq<char>| (tokens[0], s));
                assert forall|i: int| 0 <= i < ms.len() implies good_mapping(#[trigger] ms[i]) by {
                    assert(ms[i] == (tokens[0], tokens[i + 1]));
                }
            }
        }
    }
}

proof fn lemma_text_good(s: Seq<char>)
    ensures
        forall|i: int| 0 <= i < text_mappings(s).len() ==> good_mapping(#[trigger] text_mappings(s)[i]),
    decreases s.len(),
{
    let i = first_index(s, '\n');
    lemma_first_index(s, '\n');
    if i >= s.len() {
        lemma_line_good(s);
    } else {
        lemma_line_good(s.take(i as int));
        lemma_text_good(s.skip(i + 1 as int));
        let a = line_mappings(s.take(i as int));
        let b = text_mappings(s.skip(i + 1 as int));
        assert forall|t: int| 0 <= t < text_mappings(s).len() implies good_mapping(#[trigger] text_mappings(s)[t]) by {
            assert(text_mappings(s) == a + b);
            if t < a.len() {
                assert(text_mappings(s)[t] == a[t]);
            } else {
                assert(text_mappings(s)[t] == b[t - a.len()]);
            }
        }
    }
}

proof fn lemma_dedup_distinct(ms: Seq<(Seq<char>, Seq<char>)>)
    ensures
        forall|i: int, j: int|
            0 <= i < j < dedup_mappings(ms).len() ==> !same_mapping(#[trigger] dedup_mappings(ms)[i], #[trigger] dedup_mappings(ms)[j]),
    decreases ms.len(),
{
    if ms.len() > 0 {
        let p = ms.drop_last();
        lemma_dedup_distinct(p);
        lemma_dedup_members(p);
        let d = dedup_mappings(ms);
        let dp = dedup_mappings(p);
        if !(exists|j: int| 0 <= j < ms.len() - 1 && same_mapping(#[trigger] ms[j], ms.last())) {
            assert(d == dp.push(ms.last()));
            assert forall|i: int, j: int| 0 <= i < j < d.len() implies !same_mapping(#[trigger] d[i], #[trigger] d[j]) by {
                if j < dp.len() {
                    assert(d[i] == dp[i] && d[j] == dp[j]);
                } else {
                    assert(d[i] == dp[i]);
                    assert(d[j] == ms.last());
                    let t = choose|t: int| 0 <= t < p.len() && #[trigger] dp[i] == p[t];
                    assert(ms[t] == p[t]);
                    if same_mapping(d[i], d[j]) {
                        assert(same_mapping(ms[t], ms.last()));
                    }
                }
            }
        }
    }
}

/// What an alias file gives: each alias a name of ASCII letters, digits
/// and `_`; each sheet name a non-empty word without whitespace; and no two
/// mappings the same (same sheet, aliases equal up to ASCII case).
pub proof fn law_alias_mappings_well_formed(content: Seq<char>)
    ensures
        forall|i: int| 0 <= i < parse_alias_spec(content).len() ==> good_mapping(#[trigger] parse_alias_spec(content)[i]),
        forall|i: int, j: int|
            0 <= i < j < parse_alias_spec(content).len() ==> !same_mapping(
                #[trigger] parse_alias_spec(content)[i],
                #[trigger] parse_alias_spec(content)[j],
            ),
{
    let ms = text_mappings(content);
    lemma_text_good(content);
    lemma_dedup_members(ms);
    lemma_dedup_distinct(ms);
    let d = dedup_mappings(ms);
    assert forall|i: int| 0 <= i < d.len() implies good_mapping(#[trigger] d[i]) by {
        let j = choose|j: int| 0 <= j < ms.len() && #[trigger] d[i] == ms[j];
    }
}

/// A line the alias reader skips: blank after trimming, or a comment.
pub open spec fn skipped_line(l: Seq<char>) -> bool {
    trim(l).len() == 0 || is_comment_spec(trim(l))
}

/// A text whose lines (split at `\n`) are all skipped lines.
pub open spec fn skipped_lines(m: Seq<char>) -> bool
    decreases m.len(),
{
    let i = first_index(m, '\n');
    if i >= m.len() {
        skipped_line(m)
    } else {
        skipped_line(m.take(i as int)) && skipped_lines(m.skip(i + 1 as int))
    }
}

proof fn lemma_skipped_lines_give_nothing(m: Seq<char>)
    requires
        skipped_lines(m),
    ensures
        text_mappings(m) == Seq::<(Seq<char>, Seq<char>)>::empty(),
    decreases m.len(),
{
    let i = first_index(m, '\n');
    if i < m.len() {
        lemma_skipped_lines_give_nothing(m.skip(i + 1 as int));
        assert(text_mappings(m) =~= Seq::<(Seq<char>, Seq<char>)>::empty());
    }
}

/// The lines of two texts joined by a line break are the lines of the
/// first followed by the lines of the second.
proof fn lemma_text_join(a: Seq<char>, b: Seq<char>)
    ensures
        text_mappings(a + seq!['\n'] + b) == text_mappings(a) + text_mappings(b),
    decreases a.len(),
{
    let s = a + seq!['\n'] + b;
    let i = first_index(a, '\n');
    lemma_first_index(a, '\n');
    if i >= a.len() {
        assert forall|t: int| 0 <= t < a.len() implies #[trigger] s[t] != '\n' by {
            assert(s[t] == a[t]);
        }
        lemma_first_index_is(s, '\n', a.len());
        assert(s.take(a.len() as int) =~= a);
        assert(s.skip(a.len() + 1 as int) =~= b);
    } else {
        assert forall|t: int| 0 <= t < i implies #[trigger] s[t] != '\n' by {
            assert(s[t] == a[t]);
        }
        assert(s[i as int] == a[i as int]);
        lemma_first_index_is(s, '\n', i);
        let rest = a.skip(i + 1 as int);
        assert(s.take(i as int) =~= a.take(i as int));
        assert(s.skip(i + 1 as int) =~= rest + seq!['\n'] + b);
        lemma_text_join(rest, b);
        assert(text_mappings(a) == line_mappings(a.take(i as int)) + text_mappings(rest));
        assert(text_mappings(s) =~= text_mappings(a) + text_mappings(b));
    }
}

/// Blank lines and comment lines give nothing: adding any number of them
/// between two lines, before the first or after the last leaves the
/// mappings of an alias text unchanged.
pub proof fn law_alias_skipped_lines(a: Seq<char>, m: Seq<char>, b: Seq<char>)
    requires
        skipped_lines(m),
    ensures
        parse_alias_spec(a + seq!['\n'] + m + seq!['\n'] + b) == parse_alias_spec(a + seq!['\n'] + b),
        parse_alias_spec(m + seq!['\n'] + b) == parse_alias_spec(b),
        parse_alias_spec(a + seq!['\n'] + m) == parse_alias_spec(a),
{
    lemma_skipped_lines_give_nothing(m);
    lemma_text_join(m, b);
    assert(text_mappings(m + seq!['\n'] + b) =~= text_mappings(b));
    lemma_text_join(a, m + seq!['\n'] + b);
    assert(a + seq!['\n'] + m + seq!['\n'] + b =~= a + seq!['\n'] + (m + seq!['\n'] + b));
    lemma_text_join(a, b);
    lemma_text_join(a, m);
    assert(text_mappings(a) + text_mappings(m) =~= text_mappings(a));
}

/// Deduplicating only looks at what was kept so far: two runs that keep
/// the same mappings keep the same ones after the same continuation.
proof fn lemma_dedup_same_prefix(p1: Seq<(Seq<char>, Seq<char>)>, p2: Seq<(Seq<char>, Seq<char>)>, y: Seq<(Seq<char>, Seq<char>)>)
    requires
        dedup_mappings(p1) == dedup_mappings(p2),
    ensures
        dedup_mappings(p1 + y) == dedup_mappings(p2 + y),
    decreases y.len(),
{
    if y.len() == 0 {
        assert(p1 + y =~= p1);
        assert(p2 + y =~= p2);
    } else {
        let y0 = y.drop_last();
        let e = y.last();
        lemma_dedup_same_prefix(p1, p2, y0);
        assert(p1 + y =~= (p1 + y0).push(e));
        assert(p2 + y =~= (p2 + y0).push(e));
        lemma_dedup_step(p1 + y0, e);
        lemma_dedup_step(p2 + y0, e);
    }
}

/// A mapping with a same one in the input has a same one among those kept.
proof fn lemma_kept_same(ms: Seq<(Seq<char>, Seq<char>)>, j: int, e: (Seq<char>, Seq<char>))
    requires
        0 <= j < ms.len(),
        same_mapping(ms[j], e),
    ensures
        exists|t: int| 0 <= t < dedup_mappings(ms).len() && same_mapping(#[trigger] dedup_mappings(ms)[t], e),
{
    lemma_dedup_members(ms);
    let d = dedup_mappings(ms);
    let k = choose|k: int| 0 <= k < d.len() && same_mapping(d[k], #[trigger] ms[j]);
    lemma_same_mapping_equiv(d[k], ms[j], e);
}

/// A mapping kept from the input is one of the input.
proof fn lemma_kept_from(ms: Seq<(Seq<char>, Seq<char>)>, t: int) -> (j: int)
    requires
        0 <= t < dedup_mappings(ms).len(),
    ensures
        0 <= j < ms.len(),
        dedup_mappings(ms)[t] == ms[j],
{
    lemma_dedup_members(ms);
    choose|j: int| 0 <= j < ms.len() && #[trigger] dedup_mappings(ms)[t] == ms[j]
}

/// Deduplicating the continuation first changes nothing.
proof fn lemma_dedup_tail(d: Seq<(Seq<char>, Seq<char>)>, y: Seq<(Seq<char>, Seq<char>)>)
    ensures
        dedup_mappings(d + y) == dedup_mappings(d + dedup_mappings(y)),
    decreases y.len(),
{
    if y.len() == 0 {
        assert(dedup_mappings(y) =~= y);
    } else {
        let y0 = y.drop_last();
        let e = y.last();
        lemma_dedup_tail(d, y0);
        assert(y0.push(e) =~= y);
        assert(d + y =~= (d + y0).push(e));
        lemma_dedup_step(d + y0, e);
        lemma_dedup_step(y0, e);
        let dy0 = dedup_mappings(y0);
        if exists|t: int| 0 <= t < dy0.len() && same_mapping(#[trigger] dy0[t], e) {
            let t = choose|t: int| 0 <= t < dy0.len() && same_mapping(#[trigger] dy0[t], e);
            let j = lemma_kept_from(y0, t);
            assert((d + y0)[d.len() + j] == y0[j]);
            lemma_kept_same(d + y0, d.len() + j, e);
        } else {
            assert(d + dedup_mappings(y) =~= (d + dy0).push(e));
            lemma_dedup_step(d + dy0, e);
        }
    }
}

/// Lines are read one by one: an alias text made of two texts joined by a
/// line break gives the mappings of the first, then those of the second,
/// without the ones already given.
pub proof fn law_alias_texts_join(a: Seq<char>, b: Seq<char>)
    ensures
        parse_alias_spec(a + seq!['\n'] + b) == dedup_mappings(parse_alias_spec(a) + parse_alias_spec(b)),
{
    let x = text_mappings(a);
    let y = text_mappings(b);
    lemma_text_join(a, b);
    lemma_dedup_tail(Seq::<(Seq<char>, Seq<char>)>::empty(), x);
    assert(Seq::<(Seq<char>, Seq<char>)>::empty() + x =~= x);
    assert(Seq::<(Seq<char>, Seq<char>)>::empty() + dedup_mappings(x) =~= dedup_mappings(x));
    lemma_dedup_same_prefix(x, dedup_mappings(x), y);
    lemma_dedup_tail(dedup_mappings(x), y);
}

} // verus!

verus! {

/// The hit collector's state is for keyword `k`, mode `mode` and limit `max`,
/// and all its hits match.
pub open spec fn hits_sound(s: HitModel, k: Seq<char>, mode: MatchMode, max: usize) -> bool {
    &&& s.keyword == k
    &&& s.mode == mode
    &&& s.max_hits == max
    &&& forall|i: int| 0 <= i < s.hits.len() ==> cell_matches_spec(#[trigger] s.hits[i].value, k, mode)
}

proof fn lemma_hit_next(s: HitModel, row: usize, col: usize, v: Seq<char>, k: Seq<char>, mode: MatchMode, max: usize)
    requires
        hits_sound(s, k, mode, max),
        s.hits.len() < max1(max),
    ensures
        hits_sound(s.next(row, col, v).0, k, mode, max),
        s.next(row, col, v).1 ==> s.next(row, col, v).0.hits.len() < max1(max),
        s.next(row, col, v).0.hits.len() <= max1(max),
{
    if cell_matches_spec(v, k, mode) {
        let h = s.hits.push(HitView { row: row as i64, col: col as i64, value: v });
        assert forall|i: int| 0 <= i < h.len() implies cell_matches_spec(#[trigger] h[i].value, k, mode) by {
            if i < s.hits.len() {
                assert(h[i] == s.hits[i]);
            }
        }
    }
}

proof fn lemma_cells_hits(
    x: Seq<u8>,
    sst: Seq<Seq<char>>,
    i: int,
    rc: int,
    row: usize,
    cc: int,
    s: HitModel,
    k: Seq<char>,
    mode: MatchMode,
    max: usize,
)
    requires
        hits_sound(s, k, mode, max),
        s.hits.len() < max1(max),
    ensures
        ({
            let (r, f) = cells_from(x, sst, i, rc, row, cc, s);
            &&& hits_sound(r, k, mode, max)
            &&& r.hits.len() <= max1(max)
            &&& f != Flow::Stopped ==> r.hits.len() < max1(max)
        }),
    decreases rc + 2 - i,
{
    let i1 = scan_to(x, i, rc, 0x3c);
    lemma_scan_to(x, i, rc, 0x3c);
    if i1 >= rc || i1 + 1 >= rc || rc > x.len() || i < 0 {
    } else if x[i1 + 1] == 0x2f || x[i1 + 1] != 0x63 {
        let m = scan_to(x, i1, rc, 0x3e);
        lemma_scan_to(x, i1, rc, 0x3e);
        lemma_cells_hits(x, sst, m + 1, rc, row, cc, s, k, mode, max);
    } else {
        let j = scan_to(x, i1 + 2, rc, 0x3e);
        lemma_scan_to(x, i1 + 2, rc, 0x3e);
        if j < rc {
            let tag = x.subrange(i1 + 2, j);
            let cr = match attr_spec(tag, key_r()) {
                Some(r) => col_ref_spec(tag.subrange(r.0, r.1)),
                None => ColRef::NoLetters,
            };
            if !(cr is Overflow) {
                let col: usize = match cr {
                    ColRef::Col(c) => c,
                    _ => (cc + 1) as usize,
                };
                let cc2 = match cr {
                    ColRef::Col(_) => cc,
                    _ => cc + 1,
                };
                if x[j - 1] == 0x2f {
                    lemma_cells_hits(x, sst, j + 1, rc, row, cc2, s, k, mode, max);
                } else {
                    let kk = close_c_from(x, j + 1, rc);
                    let cell_close = if kk + 3 <= rc {
                        kk
                    } else {
                        rc
                    };
                    let v = cell_value_spec(x.subrange(j + 1, cell_close), kind_spec(tag), sst);
                    lemma_hit_next(s, row, col, v, k, mode, max);
                    if !(s.wants(row, col) && v.len() > 0 && !s.next(row, col, v).1) {
                        let s2 = if s.wants(row, col) && v.len() > 0 {
                            s.next(row, col, v).0
                        } else {
                            s
                        };
                        let m = scan_to(x, cell_close, rc, 0x3e);
                        lemma_close_c_from(x, j + 1, rc);
                        lemma_scan_to(x, cell_close, rc, 0x3e);
                        lemma_cells_hits(x, sst, m + 1, rc, row, cc2, s2, k, mode, max);
                    }
                }
            }
        }
    }
}

proof fn lemma_rows_hits(
    x: Seq<u8>,
    sst: Seq<Seq<char>>,
    max_row: usize,
    pos: int,
    row: usize,
    s: HitModel,
    k: Seq<char>,
    mode: MatchMode,
    max: usize,
)
    requires
        hits_sound(s, k, mode, max),
        s.hits.len() < max1(max),
    ensures
        ({
            let (r, f) = rows_from(x, sst, max_row, pos, row, s);
            &&& hits_sound(r, k, mode, max)
            &&& r.hits.len() <= max1(max)
        }),
    decreases x.len() + 8 - pos,
{
    match find_seq(x, pos, row_open()) {
        None => {},
        Some(rs) => {
            lemma_find_seq(x, pos, row_open());
            let next = if rs + 4 < x.len() {
                x[rs + 4]
            } else {
                0x3e
            };
            if is_alpha(next) {
                lemma_rows_hits(x, sst, max_row, rs + 4, row, s, k, mode, max);
            } else {
                match next_byte(x, rs, 0x3e) {
                    None => {},
                    Some(re) => {
                        lemma_next_byte(x, rs, 0x3e);
                        if re > rs {
                            match row_number(x.subrange(rs + 1, re), row) {
                                None => {},
                                Some(r) => if r <= max_row {
                                    if x[re - 1] == 0x2f {
                                        lemma_rows_hits(x, sst, max_row, re + 1, r, s, k, mode, max);
                                    } else {
                                        match find_seq(x, re + 1, row_close_tag()) {
                                            None => {},
                                            Some(rc) => {
                                                lemma_find_seq(x, re + 1, row_close_tag());
                                                lemma_cells_hits(x, sst, re + 1, rc, r, 0, s, k, mode, max);
                                                let (s2, f) = cells_from(x, sst, re + 1, rc, r, 0, s);
                                                if f == Flow::Done {
                                                    lemma_rows_hits(x, sst, max_row, rc, r, s2, k, mode, max);
                                                }
                                            },
                                        }
                                    }
                                },
                            }
                        }
                    },
                }
            }
        },
    }
}

/// The hits of a sheet preview read from worksheet XML: at most `max_hits`
/// of them (at least one), each holding a text that matches the keyword.
pub proof fn law_sheet_preview_hits(
    x: Seq<u8>,
    sst: Seq<Seq<char>>,
    keyword: Option<Seq<char>>,
    mode: MatchMode,
    max_hits: usize,
    preview_rows: usize,
    preview_cols: usize,
    start_row: Option<usize>,
    start_col: Option<usize>,
)
    requires
        sheet_preview_spec(x, sst, keyword, mode, max_hits, preview_rows, preview_cols, start_row, start_col) is Some,
    ensures
        ({
            let p = sheet_preview_spec(x, sst, keyword, mode, max_hits, preview_rows, preview_cols, start_row, start_col).unwrap();
            &&& p.hits.len() <= max1(max_hits)
            &&& forall|i: int| 0 <= i < p.hits.len() ==> keyword is Some && cell_matches_spec(
                #[trigger] p.hits[i].value,
                keyword.unwrap(),
                mode,
            )
        }),
{
    if let Some(k) = keyword {
        let hm0 = HitModel { keyword: k, mode, max_hits, hits: seq![] };
        lemma_rows_hits(x, sst, usize::MAX, 0, 0, hm0, k, mode, max_hits);
    }
}


/// The two ways of reading a sheet agree. Where a grid holds the cells of a
/// worksheet's XML (its non-empty cells, row by row, are the cells the XML
/// lists, in document order, in rows numbered in increasing order) and the
/// preview of the XML can be made, the two previews show the same hits, the
/// same header row, the same window start and the same window rows, the
/// grid's preview having at most some more rows, all empty, at the end.
pub proof fn law_previews_agree(
    x: Seq<u8>,
    sst: Seq<Seq<char>>,
    g: Seq<Seq<Seq<char>>>,
    keyword: Option<Seq<char>>,
    mode: MatchMode,
    max_hits: usize,
    pr: usize,
    pc: usize,
    start_row: Option<usize>,
    start_col: Option<usize>,
)
    requires
        rows_ascending(sheet_rows(x, sst)),
        flat_cells(sheet_rows(x, sst)) == grid_cells(g, 0),
        sheet_preview_spec(x, sst, keyword, mode, max_hits, pr, pc, start_row, start_col) is Some,
    ensures
        ({
            let a = sheet_preview_spec(x, sst, keyword, mode, max_hits, pr, pc, start_row, start_col)->0;
            let b = grid_preview_spec(g, keyword, mode, max_hits, pr, pc, start_row, start_col);
            &&& a.hits == b.hits
            &&& a.header_row == b.header_row
            &&& a.start_row == b.start_row
            &&& a.start_col == b.start_col
            &&& a.data.len() <= b.data.len()
            &&& forall|i: int| 0 <= i < a.data.len() ==> #[trigger] a.data[i] == b.data[i]
            &&& forall|i: int| a.data.len() <= i < b.data.len() ==> (#[trigger] b.data[i]).len() == 0
        }),
{
    let a = sheet_preview_spec(x, sst, keyword, mode, max_hits, pr, pc, start_row, start_col)->0;
    let b = grid_preview_spec(g, keyword, mode, max_hits, pr, pc, start_row, start_col);
    let rows = sheet_rows(x, sst);
    let all = flat_cells(rows);
    let hm0 = HitModel {
        keyword: match keyword {
            Some(k) => k,
            None => seq![],
        },
        mode,
        max_hits,
        hits: seq![],
    };
    let ghits = match keyword {
        Some(k) => first_hits(grid_hits(g, 0, k, mode), max_hits),
        None => seq![],
    };
    let (hm, hf) = match keyword {
        Some(k) => scan_spec(x, sst, usize::MAX, hm0),
        None => (hm0, Flow::Done),
    };
    if let Some(k) = keyword {
        lemma_scan_hits(x, sst, hm0);
        lemma_grid_hits_cells(g, 0, k, mode);
    }
    assert(hm.hits == ghits);
    assert(a.hits == ghits);
    assert(b.hits == ghits);
    let (wr, wc) = window_spec(first_of(ghits), start_row, start_col);
    assert(a.start_row == wr && a.start_col == wc);
    assert(b.start_row == wr && b.start_col == wc);
    let cs = sat_sub(wc, 1);
    let top = top_row(wr);
    let max_row = sat_add(top, pr);
    let wm0 = WindowModel { pr, pc, wr: top, cs, header: seq![], data: seq![] };
    lemma_scan_feed_sound(x, sst, max_row, wm0);
    assert(window_ok(wm0, seq![]));
    let kk = lemma_window_feed_rows(rows, max_row, wm0, seq![]);
    let wm = feed_rows(rows, false, max_row, wm0).0;
    assert(a.header_row == trim_row_spec(wm.header));
    assert(a.data == trim_rows(wm.data));
    let empty_cells = Seq::<(int, int, Seq<char>)>::empty();
    let tk = flat_cells(rows.take(kk));
    let sk = flat_cells(rows.skip(kk));
    assert(empty_cells + tk =~= tk);
    assert(window_ok(wm, tk));
    assert(rows =~= rows.take(kk) + rows.skip(kk));
    lemma_flat_cells_append(rows.take(kk), rows.skip(kk));
    assert forall|i: int| 0 <= i < rows.skip(kk).len() implies (#[trigger] rows.skip(kk)[i]).0 > max_row by {
        assert(rows.skip(kk)[i] == rows[kk + i]);
        if i > 0 {
            assert(rows[kk].0 < rows[kk + i].0);
        }
    }
    lemma_flat_cells_above(rows.skip(kk), max_row as int);
    lemma_grid_cells_inside(g, 0);
    assert forall|r: int, c: int| 1 <= r <= max_row && 1 <= c implies #[trigger] lookup(all, r, c) == lookup(tk, r, c) && (
    has_cell(all, r, c) ==> has_cell(tk, r, c)) by {
        lemma_lookup_other_rows(tk, sk, r, c);
        if has_cell(all, r, c) {
            let j = choose|j: int| 0 <= j < all.len() && (#[trigger] all[j]).0 == r && all[j].1 == c;
            if j >= tk.len() {
                assert(all[j] == sk[j - tk.len()]);
            } else {
                assert(all[j] == tk[j]);
            }
        }
    }
    // the header
    let raw = if g.len() > 0 {
        if pc < g[0].len() {
            g[0].take(pc as int)
        } else {
            g[0]
        }
    } else {
        seq![]
    };
    assert(b.header_row == trim_row_spec(raw));
    assert forall|i: int| 0 <= i < pc implies #[trigger] lookup(all, 1, i + 1) == (if g.len() > 0 && i < g[0].len() {
        g[0][i]
    } else {
        Seq::<char>::empty()
    }) by {
        lemma_lookup_grid(g, 0, 1, i + 1);
    }
    if wm.header.len() == pc {
        assert forall|i: int| 0 <= i < raw.len() implies #[trigger] wm.header[i] == raw[i] by {
            assert(wm.header[i] == lookup(tk, 1, i + 1));
            assert(lookup(all, 1, i + 1) == lookup(tk, 1, i + 1));
        }
        assert forall|i: int| raw.len() <= i < wm.header.len() implies (#[trigger] wm.header[i]).len() == 0 by {
            assert(wm.header[i] == lookup(tk, 1, i + 1));
            assert(lookup(all, 1, i + 1) == lookup(tk, 1, i + 1));
        }
        lemma_trim_padded(wm.header, raw);
    } else {
        assert(wm.header.len() == 0);
        assert forall|i: int| 0 <= i < raw.len() implies (#[trigger] raw[i]).len() == 0 by {
            assert(!has_cell(tk, 1, i + 1));
            assert(!has_cell(all, 1, i + 1));
            lemma_lookup_absent(all, 1, i + 1);
            assert(lookup(all, 1, i + 1) == g[0][i]);
        }
        lemma_trim_padded(raw, seq![]);
        assert(wm.header =~= Seq::<Seq<char>>::empty());
    }
    // the window rows
    let w = window_rows(g, wr, pr);
    let n = wm.data.len();
    assert(sat_sub(wr, 1) + 1 == top);
    if n > 0 {
        let j = choose|j: int| 0 <= j < tk.len() && in_window(wm, #[trigger] tk[j]) && tk[j].0 == wm.wr + wm.data.len() - 1;
        assert(all[j] == tk[j]);
        assert(all[j].0 <= g.len());
    }
    assert(n <= w.len());
    assert forall|i: int| 0 <= i < w.len() implies #[trigger] w[i] == g[top - 1 + i] by {}
    assert forall|i: int| 0 <= i < n implies #[trigger] a.data[i] == b.data[i] by {
        let row = w[i];
        assert(b.data[i] == cut_row(row, cs as int, pc as int));
        assert(a.data[i] == trim_row_spec(wm.data[i]));
        assert forall|ci: int| 0 <= ci < pc implies #[trigger] wm.data[i][ci] == lookup(all, top + i, cs + ci + 1) by {
            assert(wm.data[i][ci] == lookup(tk, wm.wr + i, wm.cs + ci + 1));
        }
        if cs >= row.len() {
            assert forall|ci: int| 0 <= ci < wm.data[i].len() implies (#[trigger] wm.data[i][ci]).len() == 0 by {
                lemma_lookup_grid(g, 0, top + i, cs + ci + 1);
            }
            lemma_trim_padded(wm.data[i], seq![]);
        } else {
            let end = if cs + pc < row.len() {
                cs + pc
            } else {
                row.len() as int
            };
            let sub = row.subrange(cs as int, end);
            assert(b.data[i] == trim_row_spec(sub));
            assert forall|ci: int| 0 <= ci < sub.len() implies #[trigger] wm.data[i][ci] == sub[ci] by {
                lemma_lookup_grid(g, 0, top + i, cs + ci + 1);
            }
            assert forall|ci: int| sub.len() <= ci < wm.data[i].len() implies (#[trigger] wm.data[i][ci]).len() == 0 by {
                lemma_lookup_grid(g, 0, top + i, cs + ci + 1);
            }
            lemma_trim_padded(wm.data[i], sub);
        }
    }
    assert forall|i: int| n <= i < b.data.len() implies (#[trigger] b.data[i]).len() == 0 by {
        let row = w[i];
        assert(b.data[i] == cut_row(row, cs as int, pc as int));
        if cs < row.len() {
            let end = if cs + pc < row.len() {
                cs + pc
            } else {
                row.len() as int
            };
            let sub = row.subrange(cs as int, end);
            assert forall|ci: int| 0 <= ci < sub.len() implies (#[trigger] sub[ci]).len() == 0 by {
                lemma_lookup_grid(g, 0, top + i, cs + ci + 1);
                assert(!has_cell(all, top + i, cs + ci + 1)) by {
                    if has_cell(all, top + i, cs + ci + 1) {
                        assert(has_cell(tk, top + i, cs + ci + 1));
                        let j = choose|j: int| 0 <= j < tk.len() && (#[trigger] tk[j]).0 == top + i && tk[j].1 == cs + ci + 1;
                        assert(in_window(wm, tk[j]));
                    }
                }
                lemma_lookup_absent(all, top + i, cs + ci + 1);
            }
            lemma_trim_padded(sub, seq![]);
        }
    }
}

} // verus!

verus! {

/// A property of sink states that every wanted cell keeps.
pub open spec fn kept_by_cells<S: SinkModel>(inv: spec_fn(S) -> bool) -> bool {
    forall|t: S, r: usize, c: usize, v: Seq<char>|
        inv(t) && t.wants(r, c) ==> #[trigger] inv(t.next(r, c, v).0)
}

proof fn lemma_cells_keep<S: SinkModel>(
    x: Seq<u8>,
    sst: Seq<Seq<char>>,
    i: int,
    rc: int,
    row: usize,
    cc: int,
    s: S,
    inv: spec_fn(S) -> bool,
)
    requires
        inv(s),
        kept_by_cells(inv),
    ensures
        inv(cells_from(x, sst, i, rc, row, cc, s).0),
    decreases rc + 2 - i,
{
    let i1 = scan_to(x, i, rc, 0x3c);
    lemma_scan_to(x, i, rc, 0x3c);
    if i1 >= rc || i1 + 1 >= rc || rc > x.len() || i < 0 {
    } else if x[i1 + 1] == 0x2f || x[i1 + 1] != 0x63 {
        let m = scan_to(x, i1, rc, 0x3e);
        lemma_scan_to(x, i1, rc, 0x3e);
        lemma_cells_keep(x, sst, m + 1, rc, row, cc, s, inv);
    } else {
        let j = scan_to(x, i1 + 2, rc, 0x3e);
        lemma_scan_to(x, i1 + 2, rc, 0x3e);
        if j < rc {
            let tag = x.subrange(i1 + 2, j);
            let cr = match attr_spec(tag, key_r()) {
                Some(r) => col_ref_spec(tag.subrange(r.0, r.1)),
                None => ColRef::NoLetters,
            };
            if !(cr is Overflow) {
                let col: usize = match cr {
                    ColRef::Col(c) => c,
                    _ => (cc + 1) as usize,
                };
                let cc2 = match cr {
                    ColRef::Col(_) => cc,
                    _ => cc + 1,
                };
                if x[j - 1] == 0x2f {
                    lemma_cells_keep(x, sst, j + 1, rc, row, cc2, s, inv);
                } else {
                    let kk = close_c_from(x, j + 1, rc);
                    let cell_close = if kk + 3 <= rc {
                        kk
                    } else {
                        rc
                    };
                    let v = cell_value_spec(x.subrange(j + 1, cell_close), kind_spec(tag), sst);
                    if s.wants(row, col) {
                        assert(inv(s.next(row, col, v).0));
                    }
                    if !(s.wants(row, col) && v.len() > 0 && !s.next(row, col, v).1) {
                        let s2 = if s.wants(row, col) && v.len() > 0 {
                            s.next(row, col, v).0
                        } else {
                            s
                        };
                        let m = scan_to(x, cell_close, rc, 0x3e);
                        lemma_close_c_from(x, j + 1, rc);
                        lemma_scan_to(x, cell_close, rc, 0x3e);
                        lemma_cells_keep(x, sst, m + 1, rc, row, cc2, s2, inv);
                    }
                }
            }
        }
    }
}

proof fn lemma_rows_keep<S: SinkModel>(
    x: Seq<u8>,
    sst: Seq<Seq<char>>,
    max_row: usize,
    pos: int,
    row: usize,
    s: S,
    inv: spec_fn(S) -> bool,
)
    requires
        inv(s),
        kept_by_cells(inv),
    ensures
        inv(rows_from(x, sst, max_row, pos, row, s).0),
    decreases x.len() + 8 - pos,
{
    match find_seq(x, pos, row_open()) {
        None => {},
        Some(rs) => {
            lemma_find_seq(x, pos, row_open());
            let next = if rs + 4 < x.len() {
                x[rs + 4]
            } else {
                0x3e
            };
            if is_alpha(next) {
                lemma_rows_keep(x, sst, max_row, rs + 4, row, s, inv);
            } else {
                match next_byte(x, rs, 0x3e) {
                    None => {},
                    Some(re) => {
                        lemma_next_byte(x, rs, 0x3e);
                        if re > rs {
                            match row_number(x.subrange(rs + 1, re), row) {
                                None => {},
                                Some(r) => if r <= max_row {
                                    if x[re - 1] == 0x2f {
                                        lemma_rows_keep(x, sst, max_row, re + 1, r, s, inv);
                                    } else {
                                        match find_seq(x, re + 1, row_close_tag()) {
                                            None => {},
                                            Some(rc) => {
                                                lemma_find_seq(x, re + 1, row_close_tag());
                                                lemma_cells_keep(x, sst, re + 1, rc, r, 0, s, inv);
                                                let (s2, f) = cells_from(x, sst, re + 1, rc, r, 0, s);
                                                if f == Flow::Done {
                                                    lemma_rows_keep(x, sst, max_row, rc, r, s2, inv);
                                                }
                                            },
                                        }
                                    }
                                },
                            }
                        }
                    },
                }
            }
        },
    }
}

/// The window collector holds at most `pr` rows of at most `pc` cells and a
/// header of at most `pc` cells.
pub open spec fn window_fits(m: WindowModel, pr: usize, pc: usize) -> bool {
    &&& m.pr == pr
    &&& m.pc == pc
    &&& m.data.len() <= pr
    &&& forall|i: int| 0 <= i < m.data.len() ==> (#[trigger] m.data[i]).len() <= pc
    &&& m.header.len() <= pc
}

proof fn lemma_window_kept(pr: usize, pc: usize)
    ensures
        kept_by_cells(|m: WindowModel| window_fits(m, pr, pc)),
{
    assert forall|t: WindowModel, r: usize, c: usize, v: Seq<char>|
        window_fits(t, pr, pc) && t.wants(r, c) implies #[trigger] window_fits(t.next(r, c, v).0, pr, pc) by {
        if window_cell(t, r, c) {
            let ri = r - t.wr;
            let d = pad_rows(t.data, ri + 1, t.pc as int);
            assert forall|i: int| 0 <= i < d.len() implies (#[trigger] d[i]).len() <= pc by {
                if i >= t.data.len() {
                    assert(d[i] == empties(t.pc as int));
                }
            }
            if c - t.cs - 1 < d[ri as int].len() {
                let d2 = d.update(ri as int, d[ri as int].update(c - t.cs - 1, v));
                assert forall|i: int| 0 <= i < d2.len() implies (#[trigger] d2[i]).len() <= pc by {
                    if i != ri {
                        assert(d2[i] == d[i]);
                    }
                }
            }
        }
    }
}

/// The shape of a sheet preview read from worksheet XML: at most
/// `preview_rows` rows of at most `preview_cols` cells, and a header of at
/// most `preview_cols` cells.
pub proof fn law_sheet_preview_shape(
    x: Seq<u8>,
    sst: Seq<Seq<char>>,
    keyword: Option<Seq<char>>,
    mode: MatchMode,
    max_hits: usize,
    preview_rows: usize,
    preview_cols: usize,
    start_row: Option<usize>,
    start_col: Option<usize>,
)
    requires
        sheet_preview_spec(x, sst, keyword, mode, max_hits, preview_rows, preview_cols, start_row, start_col) is Some,
    ensures
        ({
            let p = sheet_preview_spec(x, sst, keyword, mode, max_hits, preview_rows, preview_cols, start_row, start_col).unwrap();
            &&& p.data.len() <= preview_rows
            &&& forall|i: int| 0 <= i < p.data.len() ==> (#[trigger] p.data[i]).len() <= preview_cols
            &&& p.header_row.len() <= preview_cols
        }),
{
    let p = sheet_preview_spec(x, sst, keyword, mode, max_hits, preview_rows, preview_cols, start_row, start_col).unwrap();
    let hm0 = HitModel {
        keyword: match keyword {
            Some(k) => k,
            None => seq![],
        },
        mode,
        max_hits,
        hits: seq![],
    };
    let (hm, hf) = match keyword {
        Some(k) => scan_spec(x, sst, usize::MAX, hm0),
        None => (hm0, Flow::Done),
    };
    let (wr, wc) = window_spec(first_of(hm.hits), start_row, start_col);
    let top = top_row(wr);
    let wm0 = WindowModel { pr: preview_rows, pc: preview_cols, wr: top, cs: sat_sub(wc, 1), header: seq![], data: seq![] };
    let inv = |m: WindowModel| window_fits(m, preview_rows, preview_cols);
    lemma_window_kept(preview_rows, preview_cols);
    lemma_rows_keep(x, sst, sat_add(top, preview_rows), 0, 0, wm0, inv);
    let wm = scan_spec(x, sst, sat_add(top, preview_rows), wm0).0;
    assert(window_fits(wm, preview_rows, preview_cols));
    assert forall|i: int| 0 <= i < p.data.len() implies (#[trigger] p.data[i]).len() <= preview_cols by {
        lemma_trim_row_prefix(wm.data[i]);
    }
    lemma_trim_row_prefix(wm.header);
}

} // verus!


verus! {

/// A cell whose `t` attribute is `s` holds a shared string, `inlineStr` an
/// inline string, `str` a formula's text; without a `t` attribute the cell
/// is a number.
pub proof fn law_cell_kinds(tag: Seq<u8>)
    ensures
        attr_spec(tag, seq![0x74u8]) matches Some(r) && tag.subrange(r.0, r.1) == seq![0x73u8]
            ==> kind_spec(tag) == crate::sheet_xml::CellKind::Shared,
        attr_spec(tag, seq![0x74u8]) matches Some(r) && tag.subrange(r.0, r.1) == seq![
            0x69u8,
            0x6e,
            0x6c,
            0x69,
            0x6e,
            0x65,
            0x53,
            0x74,
            0x72,
        ] ==> kind_spec(tag) == crate::sheet_xml::CellKind::Inline,
        attr_spec(tag, seq![0x74u8]) matches Some(r) && tag.subrange(r.0, r.1) == seq![0x73u8, 0x74, 0x72]
            ==> kind_spec(tag) == crate::sheet_xml::CellKind::Str,
        attr_spec(tag, seq![0x74u8]) is None ==> kind_spec(tag) == crate::sheet_xml::CellKind::Number,
{
    assert(seq![0x73u8, 0x74, 0x72].len() == 3);
    assert(seq![0x73u8].len() == 1);
}

/// A cell marked `t="s"` whose `<v>` holds the number `i` of one of the
/// shared strings shows that shared string.
pub proof fn law_shared_cell_value(tag: Seq<u8>, c: Seq<u8>, sst: Seq<Seq<char>>, r: (int, int), i: usize)
    requires
        attr_spec(tag, seq![0x74u8]) == Some(r),
        tag.subrange(r.0, r.1) == seq![0x73u8],
        crate::sheet_xml::between_spec(c, 0, crate::sheet_xml::open_v(), crate::sheet_xml::close_v()) matches Some(
            w,
        ) && crate::bytes::parse_usize_spec(c.subrange(w.0, w.1)) == Some(i),
        i < sst.len(),
    ensures
        cell_value_spec(c, kind_spec(tag), sst) == sst[i as int],
{
}

/// Whether `s` ends with `t`.
pub open spec fn ends_with(s: Seq<char>, t: Seq<char>) -> bool {
    t.len() <= s.len() && s.subrange(s.len() - t.len(), s.len() as int) == t
}

/// What each mode asks of a sheet's cell text, with or without the
/// full-text index: an exact search always ends in the case-insensitive
/// equality of the cell text with its last parameter, the keyword itself; a
/// prefix search always ends in `LIKE` with the keyword and `%`; without the
/// index a fuzzy search is `LIKE` with `%`, the keyword and `%`.
pub proof fn law_cell_condition_modes(keyword: Seq<char>, fts_ok: bool)
    ensures
        ({
            let (c, ps) = crate::query::cell_condition_spec(keyword, MatchMode::Exact, fts_ok);
            &&& ends_with(c, "LOWER(s.cell_text) = LOWER(?)"@)
            &&& ps.len() > 0 && ps.last() == crate::query::SqlParam::Text(keyword)
        }),
        ({
            let (c, ps) = crate::query::cell_condition_spec(keyword, MatchMode::Prefix, fts_ok);
            &&& ends_with(c, "s.cell_text LIKE ? COLLATE NOCASE"@)
            &&& ps.len() > 0 && ps.last() == crate::query::SqlParam::Text(keyword + "%"@)
        }),
        keyword.len() < 3 || !fts_ok ==> ({
            let (c, ps) = crate::query::cell_condition_spec(keyword, MatchMode::Fuzzy, fts_ok);
            &&& c == "s.cell_text LIKE ? COLLATE NOCASE"@
            &&& ps == seq![crate::query::SqlParam::Text("%"@ + keyword + "%"@)]
        }),
{
    reveal_strlit("LOWER(s.cell_text) = LOWER(?)");
    reveal_strlit(" AND LOWER(s.cell_text) = LOWER(?)");
    reveal_strlit("LOWER(");
    reveal_strlit("s.cell_text");
    reveal_strlit(") = LOWER(?)");
    reveal_strlit("s.cell_text LIKE ? COLLATE NOCASE");
    reveal_strlit(" AND s.cell_text LIKE ? COLLATE NOCASE");
    reveal_strlit(" LIKE ? COLLATE NOCASE");
    let base = "s.id IN (SELECT rowid FROM sheets_fts WHERE sheets_fts MATCH ?)"@;
    let ex = "LOWER(s.cell_text) = LOWER(?)"@;
    let pre = "s.cell_text LIKE ? COLLATE NOCASE"@;
    if keyword.len() >= 3 && fts_ok {
        let c1 = base + " AND LOWER(s.cell_text) = LOWER(?)"@;
        assert(c1.subrange(c1.len() - ex.len(), c1.len() as int) =~= ex);
        let c2 = base + " AND s.cell_text LIKE ? COLLATE NOCASE"@;
        assert(c2.subrange(c2.len() - pre.len(), c2.len() as int) =~= pre);
    } else {
        let c1 = "LOWER("@ + "s.cell_text"@ + ") = LOWER(?)"@;
        assert(c1 =~= ex);
        assert(c1.subrange(0, c1.len() as int) =~= ex);
        let c2 = "s.cell_text"@ + " LIKE ? COLLATE NOCASE"@;
        assert(c2 =~= pre);
        assert(c2.subrange(0, c2.len() as int) =~= pre);
    }
}

} // verus!

verus! {

/// The sheet names stored for file `id` once `ops` have run, starting from
/// `names`: deleting the file's sheets empties them, inserting a sheet of
/// the file adds its name.
pub open spec fn stored_names(ops: Seq<crate::indexing::FileOpView>, id: i64, names: Seq<Seq<char>>) -> Seq<Seq<char>>
    decreases ops.len(),
{
    if ops.len() == 0 {
        names
    } else {
        let before = stored_names(ops.drop_last(), id, names);
        match ops.last() {
            crate::indexing::FileOpView::DeleteSheets { file_id } => if file_id == id {
                seq![]
            } else {
                before
            },
            crate::indexing::FileOpView::InsertSheet { file: Some(f), sheet_name, .. } => if f == id {
                before.push(sheet_name)
            } else {
                before
            },
            _ => before,
        }
    }
}

/// The sheet names given to the file inserted last by `ops`.
pub open spec fn new_file_names(ops: Seq<crate::indexing::FileOpView>) -> Seq<Seq<char>>
    decreases ops.len(),
{
    if ops.len() == 0 {
        seq![]
    } else {
        match ops.last() {
            crate::indexing::FileOpView::InsertFile { .. } => seq![],
            crate::indexing::FileOpView::InsertSheet { file: None, sheet_name, .. } => new_file_names(ops.drop_last()).push(
                sheet_name,
            ),
            _ => new_file_names(ops.drop_last()),
        }
    }
}

proof fn lemma_stored_names_append(a: Seq<crate::indexing::FileOpView>, b: Seq<crate::indexing::FileOpView>, id: i64, names: Seq<Seq<char>>)
    ensures
        stored_names(a + b, id, names) == stored_names(b, id, stored_names(a, id, names)),
    decreases b.len(),
{
    if b.len() == 0 {
        assert(a + b =~= a);
    } else {
        assert((a + b).drop_last() =~= a + b.drop_last());
        assert((a + b).last() == b.last());
        lemma_stored_names_append(a, b.drop_last(), id, names);
    }
}

proof fn lemma_inserted_names(ns: Seq<Seq<char>>, own: Seq<(Seq<char>, Option<Seq<char>>)>, id: i64)
    ensures
        stored_names(
            ns.map_values(
                |n: Seq<char>|
                    crate::indexing::FileOpView::InsertSheet {
                        file: Some(id),
                        sheet_name: n,
                        cell_text: crate::indexing::old_text(own, n),
                    },
            ),
            id,
            seq![],
        ) == ns,
    decreases ns.len(),
{
    let f = |n: Seq<char>|
        crate::indexing::FileOpView::InsertSheet { file: Some(id), sheet_name: n, cell_text: crate::indexing::old_text(own, n) };
    if ns.len() == 0 {
        assert(ns.map_values(f) =~= Seq::<crate::indexing::FileOpView>::empty());
        assert(ns =~= Seq::<Seq<char>>::empty());
    } else {
        lemma_inserted_names(ns.drop_last(), own, id);
        assert(ns.map_values(f).drop_last() =~= ns.drop_last().map_values(f));
        assert(ns.drop_last().push(ns.last()) =~= ns);
    }
}

proof fn lemma_new_names(ns: Seq<Seq<char>>, head: Seq<crate::indexing::FileOpView>)
    requires
        head.len() > 0,
        head.last() is InsertFile,
    ensures
        new_file_names(
            head + ns.map_values(
                |n: Seq<char>| crate::indexing::FileOpView::InsertSheet { file: None, sheet_name: n, cell_text: None },
            ),
        ) == ns,
    decreases ns.len(),
{
    let f = |n: Seq<char>| crate::indexing::FileOpView::InsertSheet { file: None, sheet_name: n, cell_text: None };
    if ns.len() == 0 {
        assert(head + ns.map_values(f) =~= head);
        assert(ns =~= Seq::<Seq<char>>::empty());
    } else {
        lemma_new_names(ns.drop_last(), head);
        assert((head + ns.map_values(f)).drop_last() =~= head + ns.drop_last().map_values(f));
        assert((head + ns.map_values(f)).last() == f(ns.last()));
        assert(ns.drop_last().push(ns.last()) =~= ns);
    }
}

/// After a rescan, every file holds exactly its scanned sheets, in order:
/// an indexed file's stored sheet names become the new ones (its sheets are
/// replaced unless they already are the new ones), and a new file gets one
/// sheet per scanned name.
pub proof fn law_rescan_stores_scanned_sheets(
    k: usize,
    u: UpdateView,
    indexed: Seq<(Seq<char>, i64)>,
    rows: Seq<SheetRow>,
)
    ensures
        indexed_id(indexed, u.1) matches Some(id) ==> stored_names(
            update_ops(k, u, indexed, rows),
            id,
            sheet_names_of(own_sheets(rows, id)),
        ) == u.2,
        indexed_id(indexed, u.1) is None ==> new_file_names(update_ops(k, u, indexed, rows)) == u.2,
{
    match indexed_id(indexed, u.1) {
        Some(id) => {
            let own = own_sheets(rows, id);
            let old = sheet_names_of(own);
            let head = seq![crate::indexing::FileOpView::UpdateFile { update: k, file_id: id, sheet_count: u.2.len() as i64 }];
            assert(stored_names(head, id, old) == old) by {
                assert(head.drop_last() =~= Seq::<crate::indexing::FileOpView>::empty());
                assert(stored_names(head.drop_last(), id, old) == old);
                assert(head.last() is UpdateFile);
            }
            if !(own.len() > 0 && old == u.2) {
                let del = seq![crate::indexing::FileOpView::DeleteSheets { file_id: id }];
                let ins = u.2.map_values(
                    |n: Seq<char>|
                        crate::indexing::FileOpView::InsertSheet {
                            file: Some(id),
                            sheet_name: n,
                            cell_text: crate::indexing::old_text(own, n),
                        },
                );
                lemma_stored_names_append(head + del, ins, id, old);
                lemma_stored_names_append(head, del, id, old);
                assert(stored_names(del, id, old) == Seq::<Seq<char>>::empty()) by {
                    assert(del.drop_last() =~= Seq::<crate::indexing::FileOpView>::empty());
                }
                lemma_inserted_names(u.2, own, id);
            }
        },
        None => {
            let head = seq![crate::indexing::FileOpView::InsertFile { update: k, sheet_count: u.2.len() as i64 }];
            lemma_new_names(u.2, head);
        },
    }
}

/// The bytes of the keyword occur in those of the text at `i`, ignoring
/// ASCII case.
pub open spec fn occurs_ic_at(vb: Seq<u8>, kb: Seq<u8>, i: int) -> bool {
    0 <= i && i + kb.len() <= vb.len() && forall|j: int|
        0 <= j < kb.len() ==> crate::matching::lower_byte(#[trigger] vb[i + j]) == crate::matching::lower_byte(kb[j])
}

/// A non-empty text is encoded in at least one byte.
proof fn lemma_encoded_not_empty(k: Seq<char>)
    requires
        k.len() > 0,
    ensures
        vstd::utf8::encode_utf8(k).len() > 0,
{
    assert(vstd::utf8::encode_utf8(k) =~= vstd::utf8::encode_scalar(k[0] as u32) + vstd::utf8::encode_utf8(k.drop_first()));
    assert(vstd::utf8::encode_scalar(k[0] as u32).len() > 0);
}

/// A fuzzy match is exactly an occurrence of the (non-empty) keyword in the
/// cell text, ignoring ASCII case; so a keyword longer than the text matches
/// in no mode.
pub proof fn law_fuzzy_is_occurrence(v: Seq<char>, k: Seq<char>)
    ensures
        cell_matches_spec(v, k, MatchMode::Fuzzy) <==> (k.len() > 0 && exists|i: int|
            occurs_ic_at(vstd::utf8::encode_utf8(v), vstd::utf8::encode_utf8(k), i)),
        vstd::utf8::encode_utf8(k).len() > vstd::utf8::encode_utf8(v).len() ==> !cell_matches_spec(v, k, MatchMode::Fuzzy)
            && !cell_matches_spec(v, k, MatchMode::Prefix) && !cell_matches_spec(v, k, MatchMode::Exact),
        cell_matches_spec(v, k, MatchMode::Prefix) ==> k.len() > 0 && occurs_ic_at(
            vstd::utf8::encode_utf8(v),
            vstd::utf8::encode_utf8(k),
            0,
        ),
        cell_matches_spec(v, k, MatchMode::Exact) <==> (k.len() > 0 && vstd::utf8::encode_utf8(v).len()
            == vstd::utf8::encode_utf8(k).len() && occurs_ic_at(vstd::utf8::encode_utf8(v), vstd::utf8::encode_utf8(k), 0)),
{
    let vb = vstd::utf8::encode_utf8(v);
    let kb = vstd::utf8::encode_utf8(k);
    if k.len() > 0 {
        assert forall|j: int| 0 <= j < kb.len() && kb.len() <= vb.len() implies #[trigger] vb[0 + j] == vb.take(kb.len() as int)[j] by {}
        lemma_encoded_not_empty(k);
        if vb.len() == kb.len() {
            if bytes_eq_ic(vb, kb) {
                assert forall|j: int| 0 <= j < kb.len() implies crate::matching::lower_byte(#[trigger] vb[0 + j])
                    == crate::matching::lower_byte(kb[j]) by {
                    assert(crate::matching::lower_byte(vb[j]) == crate::matching::lower_byte(kb[j]));
                }
            }
            if occurs_ic_at(vb, kb, 0) {
                assert forall|j: int| 0 <= j < vb.len() implies crate::matching::lower_byte(#[trigger] vb[j])
                    == crate::matching::lower_byte(kb[j]) by {
                    assert(vb[0 + j] == vb[j]);
                }
            }
        }
        if cell_matches_spec(v, k, MatchMode::Fuzzy) {
            let i = choose|i: int| 0 <= i <= vb.len() - kb.len() && #[trigger] bytes_eq_ic(vb.subrange(i, i + kb.len()), kb);
            assert forall|j: int| 0 <= j < kb.len() implies crate::matching::lower_byte(#[trigger] vb[i + j])
                == crate::matching::lower_byte(kb[j]) by {
                assert(vb.subrange(i, i + kb.len())[j] == vb[i + j]);
            }
            assert(occurs_ic_at(vb, kb, i));
        }
        if exists|i: int| occurs_ic_at(vb, kb, i) {
            let i = choose|i: int| occurs_ic_at(vb, kb, i);
            assert forall|j: int| 0 <= j < vb.subrange(i, i + kb.len()).len() implies crate::matching::lower_byte(
                #[trigger] vb.subrange(i, i + kb.len())[j],
            ) == crate::matching::lower_byte(kb[j]) by {
                assert(vb.subrange(i, i + kb.len())[j] == vb[i + j]);
            }
            assert(bytes_eq_ic(vb.subrange(i, i + kb.len()), kb));
        }
    }
}

} // verus!

verus! {

/// The sheet names of a workbook part are what the regular expression
/// `<sheet\s[^>]*?name="([^"]*)` captures in it: for each `<sheet` tag,
/// the whole value of its `name` attribute, every character up to the
/// closing quote, spaces included.
pub proof fn law_sheet_names_whole_attribute(xml: Seq<u8>)
    ensures
        crate::workbook::workbook_names_spec(xml) == match crate::workbook::regex_group_one(
            "<sheet\\s[^>]*?name=\""@ + "([^\"]*)"@,
            xml,
        ) {
            Some(caps) => crate::workbook::utf8_names(caps),
            None => seq![],
        },
{
    reveal_strlit("<sheet\\s[^>]*?name=\"([^\"]*)");
    reveal_strlit("<sheet\\s[^>]*?name=\"");
    reveal_strlit("([^\"]*)");
    assert(crate::workbook::sheet_name_pattern() =~= "<sheet\\s[^>]*?name=\""@ + "([^\"]*)"@);
}

} // verus!
