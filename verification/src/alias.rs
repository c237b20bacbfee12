//! Alias mapping files: lines of `ConfigName Sheet1 Sheet2 ...`, with the
//! older `call <script> Alias... Sheet...` form still understood.
use vstd::prelude::*;
use crate::text::{
    eq_ic, first_index, lemma_first_index_is, is_ascii_alnum, is_ws, lower_code, ranges_view, split_ws, split_ws_ranges,
    string_of, trim, trim_range, trim_start, trim_start_index, upper_code, chars_of,
};

verus! {

/// A name made only of ASCII letters, digits and `_`, and not empty.
pub open spec fn ascii_token_spec(t: Seq<char>) -> bool {
    &&& t.len() > 0
    &&& forall|i: int| 0 <= i < t.len() ==> is_ascii_alnum(#[trigger] t[i]) || t[i] == '_'
}

/// A comment line: after leading whitespace it starts with `#`, `::` or
/// (in any ASCII case) `REM `.
pub open spec fn is_comment_spec(line: Seq<char>) -> bool {
    let t = trim_start(line);
    ||| t.len() >= 1 && t[0] == '#'
    ||| t.len() >= 2 && t[0] == ':' && t[1] == ':'
    ||| t.len() >= 4 && upper_code(t[0]) == 0x52 && upper_code(t[1]) == 0x45 && upper_code(t[2])
        == 0x4d && t[3] == ' '
}

/// `Alias Sheet1 Sheet2 ...`: one mapping per sheet, when the alias is a token.
pub open spec fn new_format_spec(tokens: Seq<Seq<char>>) -> Seq<(Seq<char>, Seq<char>)> {
    if !ascii_token_spec(tokens[0]) || tokens.len() < 2 {
        seq![]
    } else {
        tokens.skip(1).map_values(|s: Seq<char>| (tokens[0], s))
    }
}

/// Number of leading tokens that are alias names.
pub open spec fn alias_prefix_len(ts: Seq<Seq<char>>) -> nat
    decreases ts.len(),
{
    if ts.len() > 0 && ascii_token_spec(ts[0]) {
        1 + alias_prefix_len(ts.drop_first())
    } else {
        0
    }
}

/// Every alias paired with every sheet, alias-major.
pub open spec fn cross(aliases: Seq<Seq<char>>, sheets: Seq<Seq<char>>) -> Seq<
    (Seq<char>, Seq<char>),
>
    decreases aliases.len(),
{
    if aliases.len() == 0 {
        seq![]
    } else {
        sheets.map_values(|s: Seq<char>| (aliases[0], s)) + cross(aliases.drop_first(), sheets)
    }
}

/// `call <script> A1 A2 ... S1 S2 ...`: the leading tokens that are names are
/// aliases, the rest are sheets; every alias maps to every sheet.
pub open spec fn legacy_format_spec(tokens: Seq<Seq<char>>) -> Seq<(Seq<char>, Seq<char>)> {
    let payload = tokens.skip(2);
    let k = alias_prefix_len(payload);
    if k == 0 || k >= payload.len() {
        seq![]
    } else {
        cross(payload.take(k as int), payload.skip(k as int))
    }
}

pub open spec fn call_word() -> Seq<char> {
    seq!['c', 'a', 'l', 'l']
}

/// The mappings that one line of an alias file contributes.
pub open spec fn line_mappings(raw: Seq<char>) -> Seq<(Seq<char>, Seq<char>)> {
    let line = trim(raw);
    if line.len() == 0 || is_comment_spec(line) {
        seq![]
    } else {
        let tokens = split_ws(line);
        if tokens.len() < 2 {
            seq![]
        } else if eq_ic(tokens[0], call_word()) && tokens.len() >= 3 {
            legacy_format_spec(tokens)
        } else {
            new_format_spec(tokens)
        }
    }
}

/// All mappings of a text, line by line (lines split at `\n`), duplicates kept.
pub open spec fn text_mappings(s: Seq<char>) -> Seq<(Seq<char>, Seq<char>)>
    decreases s.len(),
{
    let i = first_index(s, '\n');
    if i >= s.len() {
        line_mappings(s)
    } else {
        line_mappings(s.take(i as int)) + text_mappings(s.skip(i + 1 as int))
    }
}

/// Two mappings are the same when the sheets are equal and the aliases are
/// equal up to ASCII case.
pub open spec fn same_mapping(a: (Seq<char>, Seq<char>), b: (Seq<char>, Seq<char>)) -> bool {
    eq_ic(a.0, b.0) && a.1 == b.1
}

/// Keeps the first of every group of same mappings, in order.
pub open spec fn dedup_mappings(ms: Seq<(Seq<char>, Seq<char>)>) -> Seq<(Seq<char>, Seq<char>)>
    decreases ms.len(),
{
    if ms.len() == 0 {
        seq![]
    } else {
        let d = dedup_mappings(ms.drop_last());
        if exists|j: int| 0 <= j < ms.len() - 1 && same_mapping(#[trigger] ms[j], ms.last()) {
            d
        } else {
            d.push(ms.last())
        }
    }
}

/// What `parse_alias_text` returns for a text.
pub open spec fn parse_alias_spec(s: Seq<char>) -> Seq<(Seq<char>, Seq<char>)> {
    dedup_mappings(text_mappings(s))
}

pub open spec fn pairs_view(v: Seq<(String, String)>) -> Seq<(Seq<char>, Seq<char>)> {
    v.map_values(|p: (String, String)| (p.0@, p.1@))
}

fn ascii_token(c: &Vec<char>, r: (usize, usize)) -> (b: bool)
    requires
        r.0 <= r.1 <= c@.len(),
    ensures
        b == ascii_token_spec(c@.subrange(r.0 as int, r.1 as int)),
{
    if r.0 == r.1 {
        return false;
    }
    let mut i = r.0;
    while i < r.1
        invariant
            r.0 <= i <= r.1 <= c@.len(),
            forall|t: int| r.0 <= t < i ==> is_ascii_alnum(#[trigger] c@[t]) || c@[t] == '_',
        decreases r.1 - i,
    {
        let u = c[i] as u32;
        if !((0x30 <= u && u <= 0x39) || (0x41 <= u && u <= 0x5a) || (0x61 <= u && u <= 0x7a)
            || c[i] == '_') {
            assert(!(is_ascii_alnum(c@.subrange(r.0 as int, r.1 as int)[i - r.0]) || c@.subrange(
                r.0 as int,
                r.1 as int,
            )[i - r.0] == '_'));
            return false;
        }
        i = i + 1;
    }
    true
}

fn upper_of(c: char) -> (u: u32)
    ensures
        u == upper_code(c),
{
    let u = c as u32;
    if 0x61 <= u && u <= 0x7a {
        u - 32
    } else {
        u
    }
}

fn lower_of(c: char) -> (u: u32)
    ensures
        u == lower_code(c),
{
    let u = c as u32;
    if 0x41 <= u && u <= 0x5a {
        u + 32
    } else {
        u
    }
}

fn is_comment(c: &Vec<char>, lo0: usize, hi: usize) -> (b: bool)
    requires
        lo0 <= hi <= c@.len(),
    ensures
        b == is_comment_spec(c@.subrange(lo0 as int, hi as int)),
{
    let lo = trim_start_index(c, lo0, hi);
    let n = hi - lo;
    (n >= 1 && c[lo] == '#') || (n >= 2 && c[lo] == ':' && c[lo + 1] == ':') || (n >= 4
        && upper_of(c[lo]) == 0x52 && upper_of(c[lo + 1]) == 0x45 && upper_of(c[lo + 2]) == 0x4d
        && c[lo + 3] == ' ')
}

fn is_call_word(c: &Vec<char>, r: (usize, usize)) -> (b: bool)
    requires
        r.0 <= r.1 <= c@.len(),
    ensures
        b == eq_ic(c@.subrange(r.0 as int, r.1 as int), call_word()),
{
    let s = Ghost(c@.subrange(r.0 as int, r.1 as int));
    if r.1 - r.0 != 4 {
        return false;
    }
    let b = lower_of(c[r.0]) == 0x63 && lower_of(c[r.0 + 1]) == 0x61 && lower_of(c[r.0 + 2])
        == 0x6c && lower_of(c[r.0 + 3]) == 0x6c;
    proof {
        let w = call_word();
        assert(w[0] == 'c' && w[1] == 'a' && w[2] == 'l' && w[3] == 'l');
        assert(s@[0] == c@[r.0 as int] && s@[1] == c@[r.0 + 1] && s@[2] == c@[r.0 + 2] && s@[3]
            == c@[r.0 + 3]);
        if b {
            assert forall|i: int| 0 <= i < s@.len() implies lower_code(#[trigger] s@[i])
                == lower_code(w[i]) by {
                assert(i == 0 || i == 1 || i == 2 || i == 3);
            }
        }
        if eq_ic(s@, w) {
            assert(lower_code(s@[0]) == lower_code(w[0]));
            assert(lower_code(s@[1]) == lower_code(w[1]));
            assert(lower_code(s@[2]) == lower_code(w[2]));
            assert(lower_code(s@[3]) == lower_code(w[3]));
        }
    }
    b
}


/// A mapping as two index ranges (alias, sheet) into the text's characters.
pub type RangePair = ((usize, usize), (usize, usize));

pub open spec fn mranges_view(c: Seq<char>, v: Seq<RangePair>) -> Seq<(Seq<char>, Seq<char>)> {
    v.map_values(
        |m: RangePair|
            (c.subrange(m.0.0 as int, m.0.1 as int), c.subrange(m.1.0 as int, m.1.1 as int)),
    )
}

pub open spec fn ranges_ok(c: Seq<char>, v: Seq<(usize, usize)>) -> bool {
    forall|k: int| 0 <= k < v.len() ==> (#[trigger] v[k]).0 <= v[k].1 <= c.len()
}

pub open spec fn mranges_ok(c: Seq<char>, v: Seq<RangePair>) -> bool {
    forall|k: int|
        0 <= k < v.len() ==> (#[trigger] v[k]).0.0 <= v[k].0.1 <= c.len() && v[k].1.0 <= v[k].1.1
            <= c.len()
}

fn parse_new_format(c: &Vec<char>, tokens: &Vec<(usize, usize)>) -> (r: Vec<RangePair>)
    requires
        tokens@.len() >= 1,
        ranges_ok(c@, tokens@),
    ensures
        mranges_ok(c@, r@),
        mranges_view(c@, r@) == new_format_spec(ranges_view(c@, tokens@)),
{
    let ghost tv = ranges_view(c@, tokens@);
    let alias = tokens[0];
    if !ascii_token(c, alias) || tokens.len() < 2 {
        return Vec::new();
    }
    let mut r: Vec<RangePair> = Vec::new();
    let mut i: usize = 1;
    while i < tokens.len()
        invariant
            1 <= i <= tokens@.len(),
            alias == tokens@[0],
            ranges_ok(c@, tokens@),
            tv == ranges_view(c@, tokens@),
            mranges_ok(c@, r@),
            mranges_view(c@, r@) == tv.skip(1).take(i - 1).map_values(|s: Seq<char>| (tv[0], s)),
        decreases tokens@.len() - i,
    {
        let ghost old_r = r@;
        r.push((alias, tokens[i]));
        proof {
            assert(tv.skip(1).take(i as int) =~= tv.skip(1).take(i - 1).push(tv[i as int]));
            assert(mranges_view(c@, r@) =~= mranges_view(c@, old_r).push((tv[0], tv[i as int])));
            assert(mranges_view(c@, r@) =~= tv.skip(1).take(i as int).map_values(
                |s: Seq<char>| (tv[0], s),
            ));
        }
        i = i + 1;
    }
    assert(tv.skip(1).take(i - 1) =~= tv.skip(1));
    r
}

/// `legacy_format_spec` holds the alias count it needs.
fn alias_prefix(c: &Vec<char>, tokens: &Vec<(usize, usize)>, from: usize) -> (k: usize)
    requires
        from <= tokens@.len(),
        ranges_ok(c@, tokens@),
    ensures
        from + k <= tokens@.len(),
        k == alias_prefix_len(ranges_view(c@, tokens@).skip(from as int)),
{
    let ghost tv = ranges_view(c@, tokens@);
    let mut k: usize = 0;
    while k < tokens.len() - from && ascii_token(c, tokens[from + k])
        invariant
            from + k <= tokens@.len(),
            ranges_ok(c@, tokens@),
            tv == ranges_view(c@, tokens@),
            alias_prefix_len(tv.skip(from as int)) == k + alias_prefix_len(
                tv.skip((from + k) as int),
            ),
        decreases tokens@.len() - from - k,
    {
        assert(tv.skip((from + k) as int).drop_first() =~= tv.skip((from + k + 1) as int));
        k = k + 1;
    }
    k
}

fn parse_legacy_format(c: &Vec<char>, tokens: &Vec<(usize, usize)>) -> (r: Vec<RangePair>)
    requires
        tokens@.len() >= 2,
        ranges_ok(c@, tokens@),
    ensures
        mranges_ok(c@, r@),
        mranges_view(c@, r@) == legacy_format_spec(ranges_view(c@, tokens@)),
{
    let ghost tv = ranges_view(c@, tokens@);
    let ghost payload = tv.skip(2);
    let k = alias_prefix(c, tokens, 2);
    let n = tokens.len();
    if k == 0 || 2 + k >= n {
        return Vec::new();
    }
    let ghost aliases = payload.take(k as int);
    let ghost sheets = payload.skip(k as int);
    let mut r: Vec<RangePair> = Vec::new();
    let mut a: usize = 0;
    assert(aliases.skip(0) =~= aliases);
    assert(mranges_view(c@, r@) + cross(aliases, sheets) =~= cross(aliases, sheets));
    while a < k
        invariant
            0 <= a <= k,
            2 + k < n == tokens@.len(),
            ranges_ok(c@, tokens@),
            tv == ranges_view(c@, tokens@),
            payload == tv.skip(2),
            aliases == payload.take(k as int),
            sheets == payload.skip(k as int),
            mranges_ok(c@, r@),
            mranges_view(c@, r@) + cross(aliases.skip(a as int), sheets) == cross(aliases, sheets),
        decreases k - a,
    {
        let alias = tokens[2 + a];
        let ghost before = mranges_view(c@, r@);
        let mut s = 2 + k;
        while s < n
            invariant
                0 <= a < k,
                2 + k <= s <= n == tokens@.len(),
                alias == tokens@[2 + a],
                ranges_ok(c@, tokens@),
                tv == ranges_view(c@, tokens@),
                payload == tv.skip(2),
                aliases == payload.take(k as int),
                sheets == payload.skip(k as int),
                mranges_ok(c@, r@),
                mranges_view(c@, r@) == before + sheets.take(s - 2 - k).map_values(
                    |t: Seq<char>| (aliases[a as int], t),
                ),
            decreases n - s,
        {
            let ghost old_r = r@;
            r.push((alias, tokens[s]));
            proof {
                assert(aliases[a as int] == tv[2 + a]);
                assert(sheets[s - 2 - k] == tv[s as int]);
                assert(mranges_view(c@, r@) =~= mranges_view(c@, old_r).push(
                    (aliases[a as int], sheets[s - 2 - k]),
                ));
                assert(sheets.take(s + 1 - 2 - k) =~= sheets.take(s - 2 - k).push(sheets[s - 2 - k]));
                assert(mranges_view(c@, r@) =~= before + sheets.take(s + 1 - 2 - k).map_values(
                    |t: Seq<char>| (aliases[a as int], t),
                ));
            }
            s = s + 1;
        }
        proof {
            assert(sheets.take(s - 2 - k) =~= sheets);
            assert(aliases.skip(a as int).drop_first() =~= aliases.skip(a + 1));
            assert(aliases.skip(a as int)[0] == aliases[a as int]);
            assert(mranges_view(c@, r@) + cross(aliases.skip(a + 1), sheets) =~= before + cross(
                aliases.skip(a as int),
                sheets,
            ));
        }
        a = a + 1;
    }
    assert(aliases.skip(k as int) =~= Seq::<Seq<char>>::empty());
    assert(mranges_view(c@, r@) + seq![] =~= mranges_view(c@, r@));
    r
}

fn line_map(c: &Vec<char>, lo: usize, hi: usize) -> (r: Vec<RangePair>)
    requires
        lo <= hi <= c@.len(),
    ensures
        mranges_ok(c@, r@),
        mranges_view(c@, r@) == line_mappings(c@.subrange(lo as int, hi as int)),
{
    let (a, b) = trim_range(c, lo, hi);
    if a == b {
        return Vec::new();
    }
    if is_comment(c, a, b) {
        return Vec::new();
    }
    let tokens = split_ws_ranges(c, a, b);
    if tokens.len() < 2 {
        return Vec::new();
    }
    assert(ranges_ok(c@, tokens@));
    let ghost tv = ranges_view(c@, tokens@);
    assert(tv[0] == c@.subrange(tokens@[0].0 as int, tokens@[0].1 as int));
    if is_call_word(c, tokens[0]) && tokens.len() >= 3 {
        parse_legacy_format(c, &tokens)
    } else {
        parse_new_format(c, &tokens)
    }
}


/// All mappings of the text, line by line, duplicates kept.
fn text_map(c: &Vec<char>) -> (r: Vec<RangePair>)
    ensures
        mranges_ok(c@, r@),
        mranges_view(c@, r@) == text_mappings(c@),
{
    let mut all: Vec<RangePair> = Vec::new();
    let mut start: usize = 0;
    let mut done = false;
    assert(c@.skip(0) =~= c@);
    while !done
        invariant
            start <= c@.len(),
            mranges_ok(c@, all@),
            !done ==> mranges_view(c@, all@) + text_mappings(c@.skip(start as int)) == text_mappings(
                c@,
            ),
            done ==> mranges_view(c@, all@) == text_mappings(c@),
        decreases (if done { 0 } else { c@.len() + 1 - start }),
    {
        let ghost rest = c@.skip(start as int);
        let mut i = start;
        while i < c.len() && c[i] != '\n'
            invariant
                start <= i <= c@.len(),
                forall|t: int| start <= t < i ==> #[trigger] c@[t] != '\n',
            decreases c@.len() - i,
        {
            i = i + 1;
        }
        proof {
            assert forall|t: int| 0 <= t < i - start implies #[trigger] rest[t] != '\n' by {
                assert(rest[t] == c@[start + t]);
            }
            if i < c@.len() {
                assert(rest[i - start] == c@[i as int]);
            }
            lemma_first_index_is(rest, '\n', (i - start) as nat);
            assert(rest.take(i - start) =~= c@.subrange(start as int, i as int));
        }
        let line = line_map(c, start, i);
        let ghost old_all = mranges_view(c@, all@);
        let mut line_v = line;
        all.append(&mut line_v);
        proof {
            assert(mranges_view(c@, all@) =~= old_all + mranges_view(c@, line@));
            assert(mranges_ok(c@, all@));
        }
        if i == c.len() {
            assert(rest =~= c@.subrange(start as int, i as int));
            done = true;
        } else {
            assert(rest.skip(i - start + 1) =~= c@.skip(i + 1));
            assert(mranges_view(c@, all@) + text_mappings(c@.skip(i + 1)) =~= old_all + (
            mranges_view(c@, line@) + text_mappings(c@.skip(i + 1))));
            start = i + 1;
        }
    }
    all
}

pub proof fn lemma_same_mapping_equiv(a: (Seq<char>, Seq<char>), b: (Seq<char>, Seq<char>), d: (Seq<char>, Seq<char>))
    ensures
        same_mapping(a, a),
        same_mapping(a, b) ==> same_mapping(b, a),
        same_mapping(a, b) && same_mapping(b, d) ==> same_mapping(a, d),
{
    if same_mapping(a, b) {
        assert forall|i: int| 0 <= i < b.0.len() implies lower_code(#[trigger] b.0[i]) == lower_code(a.0[i]) by {
            assert(lower_code(a.0[i]) == lower_code(b.0[i]));
        }
        if same_mapping(b, d) {
            assert forall|i: int| 0 <= i < a.0.len() implies lower_code(#[trigger] a.0[i]) == lower_code(d.0[i]) by {
                assert(lower_code(a.0[i]) == lower_code(b.0[i]));
                assert(lower_code(b.0[i]) == lower_code(d.0[i]));
            }
        }
    }
}

/// Every kept mapping comes from the input, and every input mapping has a
/// same mapping among the kept ones.
pub proof fn lemma_dedup_members(ms: Seq<(Seq<char>, Seq<char>)>)
    ensures
        forall|k: int| 0 <= k < dedup_mappings(ms).len() ==> exists|j: int| 0 <= j < ms.len() && #[trigger] dedup_mappings(ms)[k] == ms[j],
        forall|j: int| 0 <= j < ms.len() ==> exists|k: int| 0 <= k < dedup_mappings(ms).len() && same_mapping(dedup_mappings(ms)[k], #[trigger] ms[j]),
    decreases ms.len(),
{
    if ms.len() > 0 {
        let p = ms.drop_last();
        lemma_dedup_members(p);
        let d = dedup_mappings(ms);
        let dp = dedup_mappings(p);
        assert forall|k: int| 0 <= k < d.len() implies exists|j: int| 0 <= j < ms.len() && #[trigger] d[k] == ms[j] by {
            if k < dp.len() {
                assert(d[k] == dp[k]);
                let j = choose|j: int| 0 <= j < p.len() && dp[k] == p[j];
                assert(ms[j] == p[j]);
            } else {
                assert(d[k] == ms.last());
                assert(d[k] == ms[ms.len() - 1]);
            }
        }
        assert forall|j: int| 0 <= j < ms.len() implies exists|k: int| 0 <= k < d.len() && same_mapping(d[k], #[trigger] ms[j]) by {
            if j < ms.len() - 1 {
                assert(ms[j] == p[j]);
                let k = choose|k: int| 0 <= k < dp.len() && same_mapping(dp[k], #[trigger] p[j]);
                assert(d[k] == dp[k]);
            } else {
                if exists|i: int| 0 <= i < ms.len() - 1 && same_mapping(#[trigger] ms[i], ms.last()) {
                    let i = choose|i: int| 0 <= i < ms.len() - 1 && same_mapping(#[trigger] ms[i], ms.last());
                    assert(ms[i] == p[i]);
                    let k = choose|k: int| 0 <= k < dp.len() && same_mapping(dp[k], #[trigger] p[i]);
                    lemma_same_mapping_equiv(dp[k], p[i], ms.last());
                    assert(d[k] == dp[k]);
                } else {
                    lemma_same_mapping_equiv(ms.last(), ms.last(), ms.last());
                    assert(d[dp.len() as int] == ms.last());
                }
            }
        }
    }
}

fn same_range_mapping(c: &Vec<char>, x: RangePair, y: RangePair) -> (b: bool)
    requires
        x.0.0 <= x.0.1 <= c@.len(),
        x.1.0 <= x.1.1 <= c@.len(),
        y.0.0 <= y.0.1 <= c@.len(),
        y.1.0 <= y.1.1 <= c@.len(),
    ensures
        b == same_mapping(
            (c@.subrange(x.0.0 as int, x.0.1 as int), c@.subrange(x.1.0 as int, x.1.1 as int)),
            (c@.subrange(y.0.0 as int, y.0.1 as int), c@.subrange(y.1.0 as int, y.1.1 as int)),
        ),
{
    let ghost xa = c@.subrange(x.0.0 as int, x.0.1 as int);
    let ghost ya = c@.subrange(y.0.0 as int, y.0.1 as int);
    let ghost xs = c@.subrange(x.1.0 as int, x.1.1 as int);
    let ghost ys = c@.subrange(y.1.0 as int, y.1.1 as int);
    if x.0.1 - x.0.0 != y.0.1 - y.0.0 || x.1.1 - x.1.0 != y.1.1 - y.1.0 {
        assert(xa.len() != ya.len() || xs.len() != ys.len());
        return false;
    }
    let n = x.0.1 - x.0.0;
    let mut i: usize = 0;
    while i < n
        invariant
            i <= n == x.0.1 - x.0.0 == y.0.1 - y.0.0,
            x.0.1 <= c@.len(),
            y.0.1 <= c@.len(),
            xa == c@.subrange(x.0.0 as int, x.0.1 as int),
            ya == c@.subrange(y.0.0 as int, y.0.1 as int),
            forall|t: int| 0 <= t < i ==> lower_code(#[trigger] xa[t]) == lower_code(ya[t]),
        decreases n - i,
    {
        if lower_of(c[x.0.0 + i]) != lower_of(c[y.0.0 + i]) {
            assert(xa[i as int] == c@[x.0.0 + i]);
            assert(ya[i as int] == c@[y.0.0 + i]);
            return false;
        }
        i = i + 1;
    }
    let m = x.1.1 - x.1.0;
    let mut j: usize = 0;
    while j < m
        invariant
            j <= m == x.1.1 - x.1.0 == y.1.1 - y.1.0,
            x.1.1 <= c@.len(),
            y.1.1 <= c@.len(),
            xs == c@.subrange(x.1.0 as int, x.1.1 as int),
            ys == c@.subrange(y.1.0 as int, y.1.1 as int),
            forall|t: int| 0 <= t < j ==> #[trigger] xs[t] == ys[t],
        decreases m - j,
    {
        if c[x.1.0 + j] != c[y.1.0 + j] {
            assert(xs[j as int] == c@[x.1.0 + j]);
            assert(ys[j as int] == c@[y.1.0 + j]);
            return false;
        }
        j = j + 1;
    }
    assert(xs =~= ys);
    true
}

fn has_same(c: &Vec<char>, kept: &Vec<RangePair>, m: RangePair) -> (found: bool)
    requires
        mranges_ok(c@, kept@),
        m.0.0 <= m.0.1 <= c@.len(),
        m.1.0 <= m.1.1 <= c@.len(),
    ensures
        found == exists|t: int|
            0 <= t < kept@.len() && same_mapping(
                #[trigger] mranges_view(c@, kept@)[t],
                (c@.subrange(m.0.0 as int, m.0.1 as int), c@.subrange(m.1.0 as int, m.1.1 as int)),
            ),
{
    let ghost x = (c@.subrange(m.0.0 as int, m.0.1 as int), c@.subrange(m.1.0 as int, m.1.1 as int));
    let mut k: usize = 0;
    while k < kept.len()
        invariant
            k <= kept@.len(),
            mranges_ok(c@, kept@),
            m.0.0 <= m.0.1 <= c@.len(),
            m.1.0 <= m.1.1 <= c@.len(),
            x == (c@.subrange(m.0.0 as int, m.0.1 as int), c@.subrange(m.1.0 as int, m.1.1 as int)),
            forall|t: int| 0 <= t < k ==> !same_mapping(#[trigger] mranges_view(c@, kept@)[t], x),
        decreases kept@.len() - k,
    {
        assert(mranges_view(c@, kept@)[k as int] == (c@.subrange(kept@[k as int].0.0 as int, kept@[k as int].0.1 as int), c@.subrange(kept@[k as int].1.0 as int, kept@[k as int].1.1 as int)));
        if same_range_mapping(c, kept[k], m) {
            assert(mranges_view(c@, kept@)[k as int] == (c@.subrange(kept@[k as int].0.0 as int, kept@[k as int].0.1 as int), c@.subrange(kept@[k as int].1.0 as int, kept@[k as int].1.1 as int)));
            return true;
        }
        k = k + 1;
    }
    false
}

/// One more mapping: it is kept exactly when no kept mapping is the same.
pub proof fn lemma_dedup_step(pre: Seq<(Seq<char>, Seq<char>)>, x: (Seq<char>, Seq<char>))
    ensures
        dedup_mappings(pre.push(x)) == (if exists|t: int| 0 <= t < dedup_mappings(pre).len() && same_mapping(#[trigger] dedup_mappings(pre)[t], x) {
            dedup_mappings(pre)
        } else {
            dedup_mappings(pre).push(x)
        }),
{
    let take1 = pre.push(x);
    let kv = dedup_mappings(pre);
    assert(take1.drop_last() =~= pre);
    assert(take1.last() == x);
    lemma_dedup_members(pre);
    if exists|t: int| 0 <= t < kv.len() && same_mapping(#[trigger] kv[t], x) {
        let t = choose|t: int| 0 <= t < kv.len() && same_mapping(#[trigger] kv[t], x);
        let j = choose|j: int| 0 <= j < pre.len() && #[trigger] kv[t] == pre[j];
        assert(take1[j] == pre[j]);
        assert(same_mapping(take1[j], take1.last()));
    } else {
        assert forall|j: int| 0 <= j < take1.len() - 1 implies !same_mapping(#[trigger] take1[j], take1.last()) by {
            assert(take1[j] == pre[j]);
            let t = choose|t: int| 0 <= t < kv.len() && same_mapping(kv[t], #[trigger] pre[j]);
            lemma_same_mapping_equiv(kv[t], pre[j], x);
        }
    }
}

/// Turns the text of an alias file into (alias, sheet) mappings.
///
/// Blank lines and comment lines are skipped; a line of fewer than two words
/// gives nothing. `Alias Sheet1 Sheet2 ...` maps the alias (ASCII letters,
/// digits and `_`) to each sheet; `call <script> A1 A2 ... S1 S2 ...` maps
/// every leading alias name to every following sheet. Of mappings that differ
/// only in the ASCII case of the alias, the first is kept.
pub fn parse_alias_text(content: &str) -> (r: Vec<(String, String)>)
    ensures
        pairs_view(r@) == parse_alias_spec(content@),
{
    let c = chars_of(content);
    let all = text_map(&c);
    let ghost ms = mranges_view(c@, all@);
    let mut kept: Vec<RangePair> = Vec::new();
    let mut i: usize = 0;
    while i < all.len()
        invariant
            i <= all@.len(),
            mranges_ok(c@, all@),
            mranges_ok(c@, kept@),
            ms == mranges_view(c@, all@),
            mranges_view(c@, kept@) == dedup_mappings(ms.take(i as int)),
        decreases all@.len() - i,
    {
        let m = all[i];
        let found = has_same(&c, &kept, m);
        proof {
            assert(ms.take(i + 1) =~= ms.take(i as int).push(ms[i as int]));
            lemma_dedup_step(ms.take(i as int), ms[i as int]);
        }
        if !found {
            let ghost old_k = kept@;
            kept.push(m);
            assert(mranges_view(c@, kept@) =~= mranges_view(c@, old_k).push(ms[i as int]));
        }
        i = i + 1;
    }
    assert(ms.take(all@.len() as int) =~= ms);
    let mut out: Vec<(String, String)> = Vec::new();
    let mut q: usize = 0;
    while q < kept.len()
        invariant
            q <= kept@.len(),
            mranges_ok(c@, kept@),
            pairs_view(out@) == mranges_view(c@, kept@).take(q as int),
        decreases kept@.len() - q,
    {
        let m = kept[q];
        let alias = string_of(&c.as_slice()[m.0.0..m.0.1]);
        let sheet = string_of(&c.as_slice()[m.1.0..m.1.1]);
        let ghost old_out = out@;
        out.push((alias, sheet));
        proof {
            assert(pairs_view(out@) =~= pairs_view(old_out).push((alias@, sheet@)));
            assert(mranges_view(c@, kept@).take(q + 1) =~= mranges_view(c@, kept@).take(q as int).push(mranges_view(c@, kept@)[q as int]));
        }
        q = q + 1;
    }
    assert(mranges_view(c@, kept@).take(q as int) =~= mranges_view(c@, kept@));
    out
}

} // verus!

verus! {

/// What `encoding_rs::GBK.decode` gives for the bytes (with its byte-order
/// mark sniffing, malformed sequences replaced).
pub uninterp spec fn gbk_text(b: Seq<u8>) -> Seq<char>;

/// `encoding_rs::GBK.decode`, the decoded text.
#[verifier::external_body]
fn gbk_decode(b: &[u8]) -> (r: String)
    ensures
        r@ == gbk_text(b@),
{
    let (text, _, _) = encoding_rs::GBK.decode(b);
    text.into_owned()
}

/// The text without its leading byte-order marks.
pub open spec fn strip_boms(s: Seq<char>) -> Seq<char>
    decreases s.len(),
{
    if s.len() > 0 && s[0] == '\u{feff}' {
        strip_boms(s.drop_first())
    } else {
        s
    }
}

/// The text of an alias file: UTF-8 where the bytes are valid UTF-8, GBK
/// otherwise, without leading byte-order marks.
pub open spec fn alias_file_text(b: Seq<u8>) -> Seq<char> {
    strip_boms(
        match crate::utf8::strict_text(b) {
            Some(t) => t,
            None => gbk_text(b),
        },
    )
}

fn without_boms(s: &str) -> (r: String)
    ensures
        r@ == strip_boms(s@),
{
    let c = chars_of(s);
    let mut i: usize = 0;
    assert(c@.skip(0) =~= c@);
    while i < c.len() && c[i] == '\u{feff}'
        invariant
            i <= c@.len(),
            c@ == s@,
            strip_boms(c@) == strip_boms(c@.skip(i as int)),
        decreases c@.len() - i,
    {
        assert(c@.skip(i as int).drop_first() =~= c@.skip(i + 1));
        i = i + 1;
    }
    assert(c@.skip(i as int) =~= c@.subrange(i as int, c@.len() as int));
    string_of(&c.as_slice()[i..c.len()])
}

/// Decodes the bytes of an alias file.
pub fn decode_alias_bytes(bytes: &[u8]) -> (r: String)
    ensures
        r@ == alias_file_text(bytes@),
{
    match crate::utf8::utf8_strict(bytes) {
        Some(s) => without_boms(s.as_str()),
        None => without_boms(gbk_decode(bytes).as_str()),
    }
}

} // verus!
