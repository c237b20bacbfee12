//! The SQL of the index: match clauses for the three match modes, full-text
//! phrases, the sheet and cell conditions and the search statement.
use vstd::prelude::*;
use crate::matching::{mode_spec, MatchMode};
use crate::text::{eq_ic, join, join_strings, str_eq_ic, texts};
use crate::utf8::push_char;
use crate::workbook::{same_text, unicode_lower};

verus! {

/// A value bound to a `?` of a statement.
#[derive(Clone, Debug, PartialEq)]
pub enum SqlValue {
    Integer(i64),
    Text(String),
}

/// The model of a bound value.
pub enum SqlParam {
    Integer(i64),
    Text(Seq<char>),
}

pub open spec fn param_of(v: SqlValue) -> SqlParam {
    match v {
        SqlValue::Integer(i) => SqlParam::Integer(i),
        SqlValue::Text(s) => SqlParam::Text(s@),
    }
}

pub open spec fn params_of(v: Seq<SqlValue>) -> Seq<SqlParam> {
    v.map_values(|x: SqlValue| param_of(x))
}

/// `a + b`, as a new string.
pub(crate) fn concat2(a: &str, b: &str) -> (r: String)
    ensures
        r@ == a@ + b@,
{
    let mut s = String::new();
    s.append(a);
    s.append(b);
    assert(Seq::<char>::empty() + a@ + b@ =~= a@ + b@);
    s
}

/// `a + b + c`, as a new string.
pub(crate) fn concat3(a: &str, b: &str, c: &str) -> (r: String)
    ensures
        r@ == a@ + b@ + c@,
{
    let mut s = concat2(a, b);
    s.append(c);
    s
}

/// The condition that `field` matches `keyword`, with its one parameter:
/// equal ignoring case (exact), starting with it (prefix) or containing it
/// (fuzzy), the last two through `LIKE` without regard to case.
pub open spec fn match_clause_spec(field: Seq<char>, keyword: Seq<char>, mode: MatchMode) -> (
    Seq<char>,
    SqlParam,
) {
    match mode {
        MatchMode::Exact => ("LOWER("@ + field + ") = LOWER(?)"@, SqlParam::Text(keyword)),
        MatchMode::Prefix => (field + " LIKE ? COLLATE NOCASE"@, SqlParam::Text(keyword + "%"@)),
        MatchMode::Fuzzy => (
            field + " LIKE ? COLLATE NOCASE"@,
            SqlParam::Text("%"@ + keyword + "%"@),
        ),
    }
}

/// The condition that `field` matches `keyword` in mode `mode`.
pub fn match_clause(field: &str, keyword: &str, mode: &str) -> (r: (String, SqlValue))
    ensures
        (r.0@, param_of(r.1)) == match_clause_spec(field@, keyword@, mode_spec(mode@)),
{
    match crate::matching::match_mode(mode) {
        MatchMode::Exact => (concat3("LOWER(", field, ") = LOWER(?)"), SqlValue::Text(keyword.to_owned())),
        MatchMode::Prefix => (
            concat2(field, " LIKE ? COLLATE NOCASE"),
            SqlValue::Text(concat2(keyword, "%")),
        ),
        MatchMode::Fuzzy => (
            concat2(field, " LIKE ? COLLATE NOCASE"),
            SqlValue::Text(concat3("%", keyword, "%")),
        ),
    }
}

/// The text with each `"` doubled.
pub open spec fn double_quotes(s: Seq<char>) -> Seq<char>
    decreases s.len(),
{
    if s.len() == 0 {
        seq![]
    } else if s.last() == '"' {
        double_quotes(s.drop_last()) + seq!['"', '"']
    } else {
        double_quotes(s.drop_last()).push(s.last())
    }
}

/// A full-text phrase: the keyword in double quotes, its own quotes doubled.
pub open spec fn fts_phrase_spec(keyword: Seq<char>) -> Seq<char> {
    seq!['"'] + double_quotes(keyword) + seq!['"']
}

/// The full-text phrase of a keyword.
pub fn fts_phrase(keyword: &str) -> (r: String)
    ensures
        r@ == fts_phrase_spec(keyword@),
{
    let c = crate::text::chars_of(keyword);
    let mut out = String::new();
    push_char(&mut out, '"');
    let mut i: usize = 0;
    while i < c.len()
        invariant
            i <= c@.len(),
            c@ == keyword@,
            out@ == seq!['"'] + double_quotes(c@.take(i as int)),
        decreases c@.len() - i,
    {
        assert(c@.take(i + 1).drop_last() =~= c@.take(i as int));
        if c[i] == '"' {
            push_char(&mut out, '"');
            push_char(&mut out, '"');
            assert(out@ =~= seq!['"'] + double_quotes(c@.take(i + 1)));
        } else {
            push_char(&mut out, c[i]);
            assert(out@ =~= seq!['"'] + double_quotes(c@.take(i + 1)));
        }
        i = i + 1;
    }
    assert(c@.take(i as int) =~= c@);
    push_char(&mut out, '"');
    out
}

/// Keywords shorter than this many characters are matched without the
/// full-text index (its trigram tokens need three).
pub open spec fn fts_min_token_len() -> nat {
    3
}

/// The condition on a sheet's cell text, with its parameters.
pub open spec fn cell_condition_spec(keyword: Seq<char>, mode: MatchMode, fts_ok: bool) -> (
    Seq<char>,
    Seq<SqlParam>,
) {
    if keyword.len() >= fts_min_token_len() && fts_ok {
        let base = "s.id IN (SELECT rowid FROM sheets_fts WHERE sheets_fts MATCH ?)"@;
        let p = SqlParam::Text(fts_phrase_spec(keyword));
        match mode {
            MatchMode::Prefix => (
                base + " AND s.cell_text LIKE ? COLLATE NOCASE"@,
                seq![p, SqlParam::Text(keyword + "%"@)],
            ),
            MatchMode::Exact => (
                base + " AND LOWER(s.cell_text) = LOWER(?)"@,
                seq![p, SqlParam::Text(keyword)],
            ),
            MatchMode::Fuzzy => (base, seq![p]),
        }
    } else {
        let (c, v) = match_clause_spec("s.cell_text"@, keyword, mode);
        (c, seq![v])
    }
}

/// The condition that a sheet's cell text matches `keyword`: through the
/// full-text index where the keyword has at least three characters and the
/// index is available, narrowed for the prefix and exact modes; otherwise
/// a plain match clause.
pub fn cell_condition(keyword: &str, mode: &str, fts_ok: bool) -> (r: (String, Vec<SqlValue>))
    ensures
        (r.0@, params_of(r.1@)) == cell_condition_spec(keyword@, mode_spec(mode@), fts_ok),
{
    let c = crate::text::chars_of(keyword);
    if c.len() >= 3 && fts_ok {
        let mut cond = String::new();
        cond.append("s.id IN (SELECT rowid FROM sheets_fts WHERE sheets_fts MATCH ?)");
        let mut params: Vec<SqlValue> = Vec::new();
        params.push(SqlValue::Text(fts_phrase(keyword)));
        let ghost e: Seq<char> = seq![];
        assert(e + "s.id IN (SELECT rowid FROM sheets_fts WHERE sheets_fts MATCH ?)"@
            =~= "s.id IN (SELECT rowid FROM sheets_fts WHERE sheets_fts MATCH ?)"@);
        match crate::matching::match_mode(mode) {
            MatchMode::Prefix => {
                cond.append(" AND s.cell_text LIKE ? COLLATE NOCASE");
                params.push(SqlValue::Text(concat2(keyword, "%")));
            },
            MatchMode::Exact => {
                cond.append(" AND LOWER(s.cell_text) = LOWER(?)");
                params.push(SqlValue::Text(keyword.to_owned()));
            },
            MatchMode::Fuzzy => {},
        }
        assert(params_of(params@) =~= cell_condition_spec(keyword@, mode_spec(mode@), fts_ok).1);
        (cond, params)
    } else {
        let (clause, value) = match_clause("s.cell_text", keyword, mode);
        let mut params: Vec<SqlValue> = Vec::new();
        params.push(value);
        assert(params_of(params@) =~= cell_condition_spec(keyword@, mode_spec(mode@), fts_ok).1);
        (clause, params)
    }
}

} // verus!

verus! {

pub open spec fn all_long(kws: Seq<Seq<char>>) -> bool {
    forall|i: int| 0 <= i < kws.len() ==> (#[trigger] kws[i]).len() >= fts_min_token_len()
}

/// Some keyword lower-cases to `l`.
pub open spec fn seen_lower(kws: Seq<Seq<char>>, l: Seq<char>) -> bool {
    exists|j: int| 0 <= j < kws.len() && unicode_lower(#[trigger] kws[j]) == l
}

/// The keywords, each kept only where no earlier one lower-cases alike.
pub open spec fn lower_firsts(kws: Seq<Seq<char>>) -> Seq<Seq<char>>
    decreases kws.len(),
{
    if kws.len() == 0 {
        seq![]
    } else {
        let r = lower_firsts(kws.drop_last());
        if seen_lower(kws.drop_last(), unicode_lower(kws.last())) {
            r
        } else {
            r.push(kws.last())
        }
    }
}

pub open spec fn repeat(s: Seq<char>, n: nat) -> Seq<Seq<char>> {
    Seq::new(n, |i: int| s)
}

pub open spec fn name_match_clauses(kws: Seq<Seq<char>>, mode: MatchMode) -> Seq<Seq<char>> {
    kws.map_values(|k: Seq<char>| match_clause_spec("s.sheet_name"@, k, mode).0)
}

pub open spec fn name_match_params(kws: Seq<Seq<char>>, mode: MatchMode) -> Seq<SqlParam> {
    kws.map_values(|k: Seq<char>| match_clause_spec("s.sheet_name"@, k, mode).1)
}

pub open spec fn phrases(kws: Seq<Seq<char>>) -> Seq<Seq<char>> {
    kws.map_values(|k: Seq<char>| fts_phrase_spec(k))
}

pub open spec fn text_params(kws: Seq<Seq<char>>, suffix: Seq<char>) -> Seq<SqlParam> {
    kws.map_values(|k: Seq<char>| SqlParam::Text(k + suffix))
}

pub open spec fn names_fts_base() -> Seq<char> {
    "s.id IN (SELECT rowid FROM sheets_fts_names WHERE sheets_fts_names MATCH ?)"@
}

/// The condition on a sheet's name for the keywords (the sheet keyword and
/// the sheets its aliases name), with its parameters.
pub open spec fn sheet_condition_spec(kws: Seq<Seq<char>>, mode: MatchMode, fts_ok: bool) -> (
    Seq<char>,
    Seq<SqlParam>,
) {
    if all_long(kws) && fts_ok {
        let p = SqlParam::Text(join(phrases(kws), " OR "@));
        match mode {
            MatchMode::Prefix => (
                names_fts_base() + " AND ("@ + join(
                    repeat("s.sheet_name LIKE ? COLLATE NOCASE"@, kws.len()),
                    " OR "@,
                ) + ")"@,
                seq![p] + text_params(kws, "%"@),
            ),
            MatchMode::Exact => (
                names_fts_base() + " AND ("@ + join(
                    repeat("LOWER(s.sheet_name) = LOWER(?)"@, kws.len()),
                    " OR "@,
                ) + ")"@,
                seq![p] + text_params(kws, seq![]),
            ),
            MatchMode::Fuzzy => (names_fts_base(), seq![p]),
        }
    } else {
        let firsts = lower_firsts(kws);
        (
            "("@ + join(name_match_clauses(firsts, mode), " OR "@) + ")"@,
            name_match_params(firsts, mode),
        )
    }
}

fn all_long_exec(keywords: &[String]) -> (r: bool)
    ensures
        r == all_long(texts(keywords@)),
{
    let ghost t = texts(keywords@);
    let mut i: usize = 0;
    while i < keywords.len()
        invariant
            i <= keywords@.len(),
            t == texts(keywords@),
            forall|j: int| 0 <= j < i ==> (#[trigger] t[j]).len() >= fts_min_token_len(),
        decreases keywords@.len() - i,
    {
        let c = crate::text::chars_of(keywords[i].as_str());
        if c.len() < 3 {
            assert(t[i as int].len() < fts_min_token_len());
            return false;
        }
        i = i + 1;
    }
    true
}

/// `n` copies of `s` joined with `" OR "`.
fn repeat_or(s: &str, n: usize) -> (r: String)
    ensures
        r@ == join(repeat(s@, n as nat), " OR "@),
{
    let mut v: Vec<String> = Vec::new();
    let mut i: usize = 0;
    while i < n
        invariant
            i <= n,
            texts(v@) == repeat(s@, i as nat),
        decreases n - i,
    {
        let ghost before = texts(v@);
        let o = s.to_owned();
        v.push(o);
        assert(texts(v@) =~= before.push(s@));
        assert(repeat(s@, (i + 1) as nat) =~= repeat(s@, i as nat).push(s@));
        i = i + 1;
    }
    join_strings(&v, " OR ")
}

fn fts_terms(keywords: &[String]) -> (r: String)
    ensures
        r@ == join(phrases(texts(keywords@)), " OR "@),
{
    let mut v: Vec<String> = Vec::new();
    let mut i: usize = 0;
    while i < keywords.len()
        invariant
            i <= keywords@.len(),
            texts(v@) == phrases(texts(keywords@)).take(i as int),
        decreases keywords@.len() - i,
    {
        let ghost before = texts(v@);
        let f = fts_phrase(keywords[i].as_str());
        v.push(f);
        assert(texts(v@) =~= before.push(fts_phrase_spec(keywords@[i as int]@)));
        assert(phrases(texts(keywords@)).take(i + 1) =~= phrases(texts(keywords@)).take(i as int).push(fts_phrase_spec(keywords@[i as int]@)));
        i = i + 1;
    }
    assert(phrases(texts(keywords@)).take(i as int) =~= phrases(texts(keywords@)));
    join_strings(&v, " OR ")
}

fn suffixed_params(keywords: &[String], suffix: &str, params: &mut Vec<SqlValue>)
    ensures
        params_of(final(params)@) == params_of(old(params)@) + text_params(texts(keywords@), suffix@),
{
    let ghost p0 = params_of(params@);
    let mut i: usize = 0;
    while i < keywords.len()
        invariant
            i <= keywords@.len(),
            params_of(params@) == p0 + text_params(texts(keywords@), suffix@).take(i as int),
        decreases keywords@.len() - i,
    {
        let ghost before = params_of(params@);
        let x = concat2(keywords[i].as_str(), suffix);
        params.push(SqlValue::Text(x));
        assert(params_of(params@) =~= before.push(SqlParam::Text(keywords@[i as int]@ + suffix@)));
        assert(text_params(texts(keywords@), suffix@).take(i + 1) =~= text_params(texts(keywords@), suffix@).take(i as int).push(SqlParam::Text(keywords@[i as int]@ + suffix@)));
        i = i + 1;
    }
    assert(text_params(texts(keywords@), suffix@).take(i as int) =~= text_params(texts(keywords@), suffix@));
}

proof fn lemma_seen_step(kws: Seq<Seq<char>>, i: int, l: Seq<char>)
    requires
        0 <= i < kws.len(),
    ensures
        seen_lower(kws.take(i + 1), l) == (seen_lower(kws.take(i), l) || unicode_lower(kws[i]) == l),
{
    if seen_lower(kws.take(i + 1), l) {
        let j = choose|j: int| 0 <= j < kws.take(i + 1).len() && unicode_lower(#[trigger] kws.take(i + 1)[j]) == l;
        if j < i {
            assert(kws.take(i)[j] == kws[j]);
        }
    }
    if seen_lower(kws.take(i), l) {
        let j = choose|j: int| 0 <= j < kws.take(i).len() && unicode_lower(#[trigger] kws.take(i)[j]) == l;
        assert(kws.take(i + 1)[j] == kws[j]);
    }
    if unicode_lower(kws[i]) == l {
        assert(kws.take(i + 1)[i] == kws[i]);
    }
}

/// The condition that a sheet's name matches one of the keywords: through
/// the full-text name index where every keyword has at least three
/// characters and the index is available, narrowed for the prefix and exact
/// modes; otherwise one match clause per keyword, skipping keywords that
/// lower-case like an earlier one.
pub fn sheet_condition(keywords: &[String], mode: &str, fts_ok: bool) -> (r: (String, Vec<SqlValue>))
    ensures
        (r.0@, params_of(r.1@)) == sheet_condition_spec(texts(keywords@), mode_spec(mode@), fts_ok),
{
    let ghost t = texts(keywords@);
    let m = crate::matching::match_mode(mode);
    if all_long_exec(keywords) && fts_ok {
        let terms = fts_terms(keywords);
        let mut cond = String::new();
        cond.append("s.id IN (SELECT rowid FROM sheets_fts_names WHERE sheets_fts_names MATCH ?)");
        let ghost e: Seq<char> = seq![];
        assert(e + names_fts_base() =~= names_fts_base());
        let mut params: Vec<SqlValue> = Vec::new();
        params.push(SqlValue::Text(terms));
        match m {
            MatchMode::Prefix => {
                cond.append(" AND (");
                cond.append(repeat_or("s.sheet_name LIKE ? COLLATE NOCASE", keywords.len()).as_str());
                cond.append(")");
                suffixed_params(keywords, "%", &mut params);
            },
            MatchMode::Exact => {
                cond.append(" AND (");
                cond.append(repeat_or("LOWER(s.sheet_name) = LOWER(?)", keywords.len()).as_str());
                cond.append(")");
                suffixed_params(keywords, "", &mut params);
                assert(""@ =~= Seq::<char>::empty()) by {
                    reveal_strlit("");
                }
            },
            MatchMode::Fuzzy => {},
        }
        (cond, params)
    } else {
        let mut seen = vstd::hash_set::StringHashSet::new();
        let mut clauses: Vec<String> = Vec::new();
        let mut params: Vec<SqlValue> = Vec::new();
        let mut i: usize = 0;
        while i < keywords.len()
            invariant
                i <= keywords@.len(),
                t == texts(keywords@),
                m == mode_spec(mode@),
                forall|l: Seq<char>| seen@.contains(l) <==> seen_lower(t.take(i as int), l),
                texts(clauses@) == name_match_clauses(lower_firsts(t.take(i as int)), m),
                params_of(params@) == name_match_params(lower_firsts(t.take(i as int)), m),
            decreases keywords@.len() - i,
        {
            let key = crate::workbook::to_lowercase(keywords[i].as_str());
            assert(t.take(i + 1).drop_last() =~= t.take(i as int));
            assert(t.take(i + 1).last() == t[i as int]);
            proof {
                assert forall|l: Seq<char>| seen_lower(t.take(i + 1), l) == (seen_lower(t.take(i as int), l) || unicode_lower(t[i as int]) == l) by {
                    lemma_seen_step(t, i as int, l);
                }
            }
            if !seen.contains(key.as_str()) {
                let ghost f0 = lower_firsts(t.take(i as int));
                let ghost c0 = texts(clauses@);
                let ghost p0 = params_of(params@);
                seen.insert(key);
                let (clause, value) = match_clause("s.sheet_name", keywords[i].as_str(), mode);
                let ghost mc = match_clause_spec("s.sheet_name"@, t[i as int], m);
                clauses.push(clause);
                params.push(value);
                assert(texts(clauses@) =~= c0.push(mc.0));
                assert(params_of(params@) =~= p0.push(mc.1));
                assert(lower_firsts(t.take(i + 1)) =~= f0.push(t[i as int]));
                assert(name_match_clauses(f0.push(t[i as int]), m) =~= name_match_clauses(f0, m).push(mc.0));
                assert(name_match_params(f0.push(t[i as int]), m) =~= name_match_params(f0, m).push(mc.1));
                assert(texts(clauses@) =~= name_match_clauses(lower_firsts(t.take(i + 1)), m));
                assert(params_of(params@) =~= name_match_params(lower_firsts(t.take(i + 1)), m));
            } else {
                assert(lower_firsts(t.take(i + 1)) == lower_firsts(t.take(i as int)));
            }
            i = i + 1;
        }
        assert(t.take(i as int) =~= t);
        let joined = join_strings(&clauses, " OR ");
        (concat3("(", joined.as_str(), ")"), params)
    }
}

} // verus!

verus! {

/// Some keyword equals `k` ignoring ASCII case.
pub open spec fn has_ic(kws: Seq<Seq<char>>, k: Seq<char>) -> bool {
    exists|j: int| 0 <= j < kws.len() && eq_ic(#[trigger] kws[j], k)
}

/// `acc` followed by each alias not equal, ignoring ASCII case, to a keyword
/// already kept.
pub open spec fn add_aliases(acc: Seq<Seq<char>>, aliases: Seq<Seq<char>>) -> Seq<Seq<char>>
    decreases aliases.len(),
{
    if aliases.len() == 0 {
        acc
    } else {
        let next = if has_ic(acc, aliases[0]) {
            acc
        } else {
            acc.push(aliases[0])
        };
        add_aliases(next, aliases.drop_first())
    }
}

/// The keywords a sheet search looks for: the sheet keyword, then the sheets
/// its aliases name; none where the sheet keyword is empty.
pub open spec fn sheet_keywords_spec(sheet_keyword: Seq<char>, aliases: Seq<Seq<char>>) -> Seq<Seq<char>> {
    if sheet_keyword.len() == 0 {
        seq![]
    } else {
        add_aliases(seq![sheet_keyword], aliases)
    }
}

/// The conditions of a search, each with its parameters, in order: file
/// name, sheet name, cell text; each only where its keyword is given.
pub open spec fn search_conditions(
    sheet_keyword: Seq<char>,
    filename_keyword: Seq<char>,
    cell_keyword: Seq<char>,
    mode: MatchMode,
    fts_ok: bool,
    aliases: Seq<Seq<char>>,
) -> Seq<(Seq<char>, Seq<SqlParam>)> {
    let f = if filename_keyword.len() > 0 {
        let (c, v) = match_clause_spec("f.filename"@, filename_keyword, mode);
        seq![(c, seq![v])]
    } else {
        seq![]
    };
    let kws = sheet_keywords_spec(sheet_keyword, aliases);
    let s = if kws.len() > 0 {
        seq![sheet_condition_spec(kws, mode, fts_ok)]
    } else {
        seq![]
    };
    let c = if cell_keyword.len() > 0 {
        seq![cell_condition_spec(cell_keyword, mode, fts_ok)]
    } else {
        seq![]
    };
    f + s + c
}

pub open spec fn cond_texts(cs: Seq<(Seq<char>, Seq<SqlParam>)>) -> Seq<Seq<char>> {
    cs.map_values(|c: (Seq<char>, Seq<SqlParam>)| c.0)
}

/// The parameters of the conditions, in order.
pub open spec fn cond_params(cs: Seq<(Seq<char>, Seq<SqlParam>)>) -> Seq<SqlParam>
    decreases cs.len(),
{
    if cs.len() == 0 {
        seq![]
    } else {
        cond_params(cs.drop_last()) + cs.last().1
    }
}

pub open spec fn search_base() -> Seq<char> {
    "SELECT DISTINCT f.filename, f.filepath, s.sheet_name FROM xlsx_files f LEFT JOIN sheets s ON f.id = s.file_id"@
}

pub open spec fn order_clause(sort_mode: Seq<char>) -> Seq<char> {
    if sort_mode == "filename_desc"@ {
        " ORDER BY LOWER(f.filename) DESC, LOWER(s.sheet_name) DESC"@
    } else {
        " ORDER BY LOWER(f.filename) ASC, LOWER(s.sheet_name) ASC"@
    }
}

/// The search statement and its parameters: every file with its sheets
/// (a file without sheets once, with no sheet name), filtered by the
/// conditions joined with `AND`, ordered by file name then sheet name,
/// ignoring case, descending for `filename_desc` and ascending otherwise.
pub open spec fn search_query_spec(
    sheet_keyword: Seq<char>,
    filename_keyword: Seq<char>,
    cell_keyword: Seq<char>,
    mode: MatchMode,
    sort_mode: Seq<char>,
    fts_ok: bool,
    aliases: Seq<Seq<char>>,
) -> (Seq<char>, Seq<SqlParam>) {
    let cs = search_conditions(sheet_keyword, filename_keyword, cell_keyword, mode, fts_ok, aliases);
    let filter = if cs.len() > 0 {
        " WHERE "@ + join(cond_texts(cs), " AND "@)
    } else {
        seq![]
    };
    (search_base() + filter + order_clause(sort_mode), cond_params(cs))
}

fn sheet_keywords(sheet_keyword: &str, aliases: &[String]) -> (r: Vec<String>)
    ensures
        texts(r@) == sheet_keywords_spec(sheet_keyword@, texts(aliases@)),
{
    let mut kws: Vec<String> = Vec::new();
    if sheet_keyword.is_empty() {
        return kws;
    }
    kws.push(sheet_keyword.to_owned());
    let ghost a = texts(aliases@);
    assert(texts(kws@) =~= seq![sheet_keyword@]);
    assert(a.skip(0) =~= a);
    let mut i: usize = 0;
    while i < aliases.len()
        invariant
            i <= aliases@.len(),
            a == texts(aliases@),
            sheet_keyword@.len() > 0,
            add_aliases(seq![sheet_keyword@], a) == add_aliases(texts(kws@), a.skip(i as int)),
        decreases aliases@.len() - i,
    {
        let ghost k = texts(kws@);
        assert(a.skip(i as int).drop_first() =~= a.skip(i + 1));
        assert(a.skip(i as int)[0] == a[i as int]);
        let mut found = false;
        let mut j: usize = 0;
        while j < kws.len()
            invariant
                j <= kws@.len(),
                k == texts(kws@),
                i < aliases@.len(),
                a == texts(aliases@),
                found == (exists|t: int| 0 <= t < j && eq_ic(#[trigger] k[t], a[i as int])),
            decreases kws@.len() - j,
        {
            assert(k[j as int] == kws@[j as int]@);
            assert(a[i as int] == aliases@[i as int]@);
            if str_eq_ic(kws[j].as_str(), aliases[i].as_str()) {
                found = true;
            }
            j = j + 1;
        }
        assert(found == has_ic(k, a[i as int]));
        if !found {
            kws.push(aliases[i].clone());
            assert(texts(kws@) =~= k.push(a[i as int]));
        }
        i = i + 1;
    }
    assert(a.skip(i as int) =~= Seq::<Seq<char>>::empty());
    kws
}

/// The search statement for the keywords (empty keywords add no
/// condition), with `aliases` the sheets the sheet keyword's aliases name.
pub fn search_query(
    sheet_keyword: &str,
    filename_keyword: &str,
    cell_keyword: &str,
    match_mode: &str,
    sort_mode: &str,
    fts_ok: bool,
    aliases: &[String],
) -> (r: (String, Vec<SqlValue>))
    ensures
        (r.0@, params_of(r.1@)) == search_query_spec(
            sheet_keyword@,
            filename_keyword@,
            cell_keyword@,
            mode_spec(match_mode@),
            sort_mode@,
            fts_ok,
            texts(aliases@),
        ),
{
    let ghost cs = search_conditions(
        sheet_keyword@,
        filename_keyword@,
        cell_keyword@,
        mode_spec(match_mode@),
        fts_ok,
        texts(aliases@),
    );
    let mut conditions: Vec<String> = Vec::new();
    let mut params: Vec<SqlValue> = Vec::new();
    let ghost mut done: Seq<(Seq<char>, Seq<SqlParam>)> = seq![];
    if !filename_keyword.is_empty() {
        let (clause, value) = match_clause("f.filename", filename_keyword, match_mode);
        let ghost prev = done;
        proof {
            done = done.push((clause@, seq![param_of(value)]));
        }
        conditions.push(clause);
        params.push(value);
        assert(done.drop_last() =~= prev);
        assert(cond_params(prev) =~= Seq::<SqlParam>::empty());
        assert(params_of(params@) =~= cond_params(done));
    }
    assert(params_of(params@) == cond_params(done));
    assert(texts(conditions@) =~= cond_texts(done));
    let kws = sheet_keywords(sheet_keyword, aliases);
    if kws.len() > 0 {
        let (cond, vals) = sheet_condition(kws.as_slice(), match_mode, fts_ok);
        let ghost p0 = params_of(params@);
        let ghost prev = done;
        proof {
            done = done.push((cond@, params_of(vals@)));
        }
        assert(done.drop_last() =~= prev);
        conditions.push(cond);
        let mut k: usize = 0;
        while k < vals.len()
            invariant
                k <= vals@.len(),
                params_of(params@) == p0 + params_of(vals@).take(k as int),
            decreases vals@.len() - k,
        {
            let ghost b = params_of(params@);
            params.push(vals[k].clone_value());
            assert(params_of(params@) =~= b.push(param_of(vals@[k as int])));
            assert(params_of(vals@).take(k + 1) =~= params_of(vals@).take(k as int).push(param_of(vals@[k as int])));
            k = k + 1;
        }
        assert(params_of(vals@).take(k as int) =~= params_of(vals@));
    }
    assert(params_of(params@) == cond_params(done));
    assert(texts(conditions@) =~= cond_texts(done));
    if !cell_keyword.is_empty() {
        let (cond, vals) = cell_condition(cell_keyword, match_mode, fts_ok);
        let ghost p0 = params_of(params@);
        let ghost prev = done;
        proof {
            done = done.push((cond@, params_of(vals@)));
        }
        assert(done.drop_last() =~= prev);
        conditions.push(cond);
        let mut k: usize = 0;
        while k < vals.len()
            invariant
                k <= vals@.len(),
                params_of(params@) == p0 + params_of(vals@).take(k as int),
            decreases vals@.len() - k,
        {
            let ghost b = params_of(params@);
            params.push(vals[k].clone_value());
            assert(params_of(params@) =~= b.push(param_of(vals@[k as int])));
            assert(params_of(vals@).take(k + 1) =~= params_of(vals@).take(k as int).push(param_of(vals@[k as int])));
            k = k + 1;
        }
        assert(params_of(vals@).take(k as int) =~= params_of(vals@));
    }
    assert(done =~= cs);
    assert(texts(conditions@) =~= cond_texts(cs));
    let mut sql = String::new();
    sql.append("SELECT DISTINCT f.filename, f.filepath, s.sheet_name FROM xlsx_files f LEFT JOIN sheets s ON f.id = s.file_id");
    let ghost e: Seq<char> = seq![];
    assert(e + search_base() =~= search_base());
    if conditions.len() > 0 {
        sql.append(" WHERE ");
        sql.append(join_strings(&conditions, " AND ").as_str());
    } else {
        assert(sql@ + Seq::<char>::empty() =~= sql@);
    }
    if same_text(sort_mode, "filename_desc") {
        sql.append(" ORDER BY LOWER(f.filename) DESC, LOWER(s.sheet_name) DESC");
    } else {
        sql.append(" ORDER BY LOWER(f.filename) ASC, LOWER(s.sheet_name) ASC");
    }
    (sql, params)
}

impl SqlValue {
    pub fn clone_value(&self) -> (r: SqlValue)
        ensures
            param_of(r) == param_of(*self),
    {
        match self {
            SqlValue::Integer(i) => SqlValue::Integer(*i),
            SqlValue::Text(s) => SqlValue::Text(s.clone()),
        }
    }
}

/// The statement that lists the sheets the aliases matching `keyword` map
/// to, in lower-cased order, with its parameter; none for an empty keyword.
pub open spec fn alias_query_spec(keyword: Seq<char>, mode: MatchMode) -> Option<(Seq<char>, SqlParam)> {
    if keyword.len() == 0 {
        None
    } else {
        let (c, v) = match_clause_spec("alias_name"@, keyword, mode);
        Some(("SELECT DISTINCT sheet_name FROM sheet_aliases WHERE "@ + c + " ORDER BY LOWER(sheet_name)"@, v))
    }
}

/// The statement that resolves a sheet keyword through the alias table.
pub fn alias_query(keyword: &str, match_mode: &str) -> (r: Option<(String, SqlValue)>)
    ensures
        match r {
            Some(q) => alias_query_spec(keyword@, mode_spec(match_mode@)) == Some((q.0@, param_of(q.1))),
            None => alias_query_spec(keyword@, mode_spec(match_mode@)) is None,
        },
{
    if keyword.is_empty() {
        return None;
    }
    let (clause, value) = match_clause("alias_name", keyword, match_mode);
    Some((concat3("SELECT DISTINCT sheet_name FROM sheet_aliases WHERE ", clause.as_str(), " ORDER BY LOWER(sheet_name)"), value))
}

} // verus!

verus! {

/// `n` question marks separated by commas.
pub open spec fn placeholders_spec(n: nat) -> Seq<char> {
    join(repeat("?"@, n), ","@)
}

/// The placeholder list of an `IN (...)` over `n` values.
pub fn placeholders(n: usize) -> (r: String)
    ensures
        r@ == placeholders_spec(n as nat),
{
    let mut v: Vec<String> = Vec::new();
    let mut i: usize = 0;
    while i < n
        invariant
            i <= n,
            texts(v@) == repeat("?"@, i as nat),
        decreases n - i,
    {
        let ghost before = texts(v@);
        let q = "?".to_owned();
        v.push(q);
        assert(texts(v@) =~= before.push("?"@));
        assert(repeat("?"@, (i + 1) as nat) =~= repeat("?"@, i as nat).push("?"@));
        i = i + 1;
    }
    join_strings(&v, ",")
}

/// The statement that reads the sheets (file id, name, cell text) of `n`
/// files, by file and then in insertion order.
pub fn file_sheets_query(n: usize) -> (r: String)
    ensures
        r@ == "SELECT file_id, sheet_name, cell_text FROM sheets WHERE file_id IN ("@
            + placeholders_spec(n as nat) + ") ORDER BY file_id, id"@,
{
    concat3(
        "SELECT file_id, sheet_name, cell_text FROM sheets WHERE file_id IN (",
        placeholders(n).as_str(),
        ") ORDER BY file_id, id",
    )
}

/// The two statements that delete `n` files: their sheets, then the files.
pub fn delete_files_queries(n: usize) -> (r: (String, String))
    ensures
        r.0@ == "DELETE FROM sheets WHERE file_id IN ("@ + placeholders_spec(n as nat) + ")"@,
        r.1@ == "DELETE FROM xlsx_files WHERE id IN ("@ + placeholders_spec(n as nat) + ")"@,
{
    let p = placeholders(n);
    (
        concat3("DELETE FROM sheets WHERE file_id IN (", p.as_str(), ")"),
        concat3("DELETE FROM xlsx_files WHERE id IN (", p.as_str(), ")"),
    )
}

} // verus!

verus! {

/// The text with each `"` doubled (`str::replace('"', "\"\"")`).
pub fn double_quoted(s: &str) -> (r: String)
    ensures
        r@ == double_quotes(s@),
{
    let c = crate::text::chars_of(s);
    let mut out = String::new();
    let mut i: usize = 0;
    while i < c.len()
        invariant
            i <= c@.len(),
            c@ == s@,
            out@ == double_quotes(c@.take(i as int)),
        decreases c@.len() - i,
    {
        assert(c@.take(i + 1).drop_last() =~= c@.take(i as int));
        if c[i] == '"' {
            push_char(&mut out, '"');
            push_char(&mut out, '"');
            assert(out@ =~= double_quotes(c@.take(i + 1)));
        } else {
            push_char(&mut out, c[i]);
            assert(out@ =~= double_quotes(c@.take(i + 1)));
        }
        i = i + 1;
    }
    assert(c@.take(i as int) =~= c@);
    out
}

} // verus!
